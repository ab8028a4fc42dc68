//! Small schema-shape helpers shared by the fixups, the type extraction and the
//! dispatch tables.
use vstd::prelude::*;
use crate::json::{
    copy_value, lemma_view_entries, lemma_view_seq, obj_get, view_entries, view_seq, Entries,
    Json, Value,
};
use crate::jsontext::{json_text, to_json_text};
use crate::strings::{chars_lt, chars_of, seq_lt, str_eq, strings_view};

verus! {

/// `m[key]` (or its first element, when it is a list) satisfies "is a string".
pub open spec fn member_is_str(m: Entries, key: Seq<char>) -> bool {
    match obj_get(m, key) {
        None => false,
        Some(Json::Array(a)) => a.len() > 0 && a[0] is Str,
        Some(v) => v is Str,
    }
}

/// `m[key]` (or its first element, when it is a list) is an integer.
pub open spec fn member_is_int(m: Entries, key: Seq<char>) -> bool {
    match obj_get(m, key) {
        None => false,
        Some(Json::Array(a)) => a.len() > 0 && a[0] is Int,
        Some(v) => v is Int,
    }
}

/// A schema constraining string values through `const`, `enum` or `pattern`.
pub open spec fn string_schema(j: Json) -> bool {
    match j {
        Json::Object(m) => member_is_str(m, "const"@) || member_is_str(m, "enum"@)
            || member_is_str(m, "pattern"@),
        _ => false,
    }
}

/// A schema constraining integer values through `const`, `enum`, `minimum` or
/// `maximum`.
pub open spec fn int_schema(j: Json) -> bool {
    match j {
        Json::Object(m) => member_is_int(m, "const"@) || member_is_int(m, "enum"@)
            || member_is_int(m, "minimum"@) || member_is_int(m, "maximum"@),
        _ => false,
    }
}

pub fn member_is_str_exec(o: &Vec<(String, Value)>, key: &str) -> (r: bool)
    ensures
        r == member_is_str(view_entries(o@), key@),
{
    match crate::json::field_get(o, key) {
        None => false,
        Some(Value::Array(a)) => {
            proof { lemma_view_seq(a@); }
            a.len() > 0 && matches!(a[0], Value::Str(_))
        },
        Some(Value::Str(_)) => true,
        Some(_) => false,
    }
}

pub fn member_is_int_exec(o: &Vec<(String, Value)>, key: &str) -> (r: bool)
    ensures
        r == member_is_int(view_entries(o@), key@),
{
    match crate::json::field_get(o, key) {
        None => false,
        Some(Value::Array(a)) => {
            proof { lemma_view_seq(a@); }
            a.len() > 0 && matches!(a[0], Value::Int(_))
        },
        Some(Value::Int(_)) => true,
        Some(_) => false,
    }
}

/// Return whether `const`/`enum`/`pattern` (or its first element) holds a
/// string.
pub fn is_string_schema(subschema: &Value) -> (r: bool)
    ensures
        r == string_schema(subschema@),
{
    match subschema {
        Value::Object(o) => member_is_str_exec(o, "const") || member_is_str_exec(o, "enum")
            || member_is_str_exec(o, "pattern"),
        _ => false,
    }
}

/// Return whether a schema constrains integer values.
pub fn is_int_schema(subschema: &Value) -> (r: bool)
    ensures
        r == int_schema(subschema@),
{
    match subschema {
        Value::Object(o) => member_is_int_exec(o, "const") || member_is_int_exec(o, "enum")
            || member_is_int_exec(o, "minimum") || member_is_int_exec(o, "maximum"),
        _ => false,
    }
}

/// `value.as_i64()`: an integer within the range of `i64`.
pub open spec fn as_i64(j: Option<Json>) -> Option<int> {
    match j {
        Some(Json::Int(i)) => if i64::MIN <= i <= i64::MAX { Some(i) } else { None },
        _ => None,
    }
}

pub open spec fn int_pair(a: int, b: int) -> Json {
    Json::Array(seq![Json::Int(a), Json::Int(b)])
}

/// `[min, max]` item counts of an array schema: a fixed-size `items` list gives
/// its length as the maximum; otherwise `minItems` (default 1) and `maxItems`
/// (default 0, unbounded). A list of other than one schema gives `[0, 0]`; a
/// non-object schema `[1, 0]`.
pub open spec fn array_range(j: Json) -> Json {
    let sub = match j {
        Json::Array(a) => if a.len() == 1 { Some(a[0]) } else { None },
        other => Some(other),
    };
    match sub {
        None => int_pair(0, 0),
        Some(Json::Object(m)) => match obj_get(m, "items"@) {
            Some(Json::Array(items)) => {
                let max = items.len() as int;
                let min = match as_i64(obj_get(m, "minItems"@)) {
                    Some(n) => n,
                    None => max,
                };
                int_pair(min, max)
            },
            _ => {
                let min = match as_i64(obj_get(m, "minItems"@)) {
                    Some(n) => n,
                    None => 1,
                };
                let max = match as_i64(obj_get(m, "maxItems"@)) {
                    Some(n) => n,
                    None => 0,
                };
                int_pair(min, max)
            },
        },
        Some(_) => int_pair(1, 0),
    }
}

fn get_i64(o: &Vec<(String, Value)>, key: &str) -> (r: Option<i128>)
    ensures
        match r {
            Some(n) => as_i64(obj_get(view_entries(o@), key@)) == Some(n as int),
            None => as_i64(obj_get(view_entries(o@), key@)) is None,
        },
{
    match crate::json::field_get(o, key) {
        Some(Value::Int(n)) => if i64::MIN as i128 <= *n && *n <= i64::MAX as i128 { Some(*n) } else { None },
        _ => None,
    }
}

fn pair_value(a: i128, b: i128) -> (r: Value)
    ensures
        r@ == int_pair(a as int, b as int),
{
    let v = vec![Value::Int(a), Value::Int(b)];
    proof {
        lemma_view_seq(v@);
        assert(view_seq(v@) =~= seq![Json::Int(a as int), Json::Int(b as int)]);
    }
    Value::Array(v)
}

fn object_range(o: &Vec<(String, Value)>) -> (r: Value)
    ensures
        r@ == array_range(Json::Object(view_entries(o@))),
{
    match crate::json::field_get(o, "items") {
        Some(Value::Array(items)) => {
            proof { lemma_view_seq(items@); }
            let max = items.len() as i128;
            let min = match get_i64(o, "minItems") {
                Some(n) => n,
                None => max,
            };
            pair_value(min, max)
        },
        _ => {
            let min = match get_i64(o, "minItems") {
                Some(n) => n,
                None => 1,
            };
            let max = match get_i64(o, "maxItems") {
                Some(n) => n,
                None => 0,
            };
            pair_value(min, max)
        },
    }
}

/// Return `[min, max]` as a JSON array.
pub fn get_array_range(subschema: &Value) -> (r: Value)
    ensures
        r@ == array_range(subschema@),
{
    match subschema {
        Value::Array(a) => {
            proof { lemma_view_seq(a@); }
            if a.len() != 1 {
                return pair_value(0, 0);
            }
            match &a[0] {
                Value::Object(o) => object_range(o),
                _ => pair_value(1, 0),
            }
        },
        Value::Object(o) => object_range(o),
        _ => pair_value(1, 0),
    }
}

// ---- gathering values by key ---------------------------------------------

/// Every value stored under `key`, in document order; a value stored under
/// `key` is not searched further.
pub open spec fn gather(j: Json, key: Seq<char>) -> Seq<Json>
    decreases j,
{
    match j {
        Json::Object(m) => gather_entries(m, key),
        Json::Array(a) => gather_seq(a, key),
        _ => Seq::empty(),
    }
}

pub open spec fn gather_seq(a: Seq<Json>, key: Seq<char>) -> Seq<Json>
    decreases a,
{
    if a.len() == 0 {
        Seq::empty()
    } else {
        gather_seq(a.drop_last(), key) + gather(a.last(), key)
    }
}

pub open spec fn gather_entries(m: Entries, key: Seq<char>) -> Seq<Json>
    decreases m,
{
    if m.len() == 0 {
        Seq::empty()
    } else {
        gather_entries(m.drop_last(), key) + if m.last().0 == key {
            seq![m.last().1]
        } else {
            gather(m.last().1, key)
        }
    }
}

/// Collect (copies of) every value under `lookup_key`, recursively.
#[verifier::loop_isolation(false)]
fn item_generator(json_input: &Value, lookup_key: &str, out: &mut Vec<Value>)
    ensures
        view_seq(final(out)@) == view_seq(old(out)@) + gather(json_input@, lookup_key@),
    decreases json_input,
{
    let ghost start = view_seq(out@);
    match json_input {
        Value::Object(o) => {
            let ghost m = view_entries(o@);
            proof { lemma_view_entries(o@); }
            let mut i: usize = 0;
            while i < o.len()
                invariant
                    i <= o@.len(),
                    m == view_entries(o@),
                    m.len() == o@.len(),
                    view_seq(out@) == start + gather_entries(m.take(i as int), lookup_key@),
                decreases o.len() - i,
            {
                let ghost before = view_seq(out@);
                assert(m.take(i + 1).drop_last() =~= m.take(i as int));
                assert(m.take(i + 1).last() == (o@[i as int].0@, o@[i as int].1@));
                if str_eq(o[i].0.as_str(), lookup_key) {
                    let c = copy_value(&o[i].1);
                    let ghost b = out@;
                    out.push(c);
                    proof {
                        assert(out@.drop_last() =~= b);
                        assert(view_seq(out@) =~= before + seq![c@]);
                    }
                } else {
                    proof {
                        assert(decreases_to!(*json_input => json_input->Object_0));
                        assert(decreases_to!(json_input->Object_0 => json_input->Object_0@));
                        assert(decreases_to!(json_input->Object_0@ => json_input->Object_0@[i as int]));
                        assert(decreases_to!(json_input->Object_0@[i as int] => json_input->Object_0@[i as int].1));
                    }
                    item_generator(&o[i].1, lookup_key, out);
                }
                assert(view_seq(out@) =~= start + gather_entries(m.take(i + 1), lookup_key@));
                i += 1;
            }
            assert(m.take(o@.len() as int) =~= m);
        },
        Value::Array(a) => {
            let ghost s = view_seq(a@);
            proof { lemma_view_seq(a@); }
            let mut i: usize = 0;
            while i < a.len()
                invariant
                    i <= a@.len(),
                    s == view_seq(a@),
                    s.len() == a@.len(),
                    view_seq(out@) == start + gather_seq(s.take(i as int), lookup_key@),
                decreases a.len() - i,
            {
                proof {
                    assert(decreases_to!(*json_input => json_input->Array_0));
                    assert(decreases_to!(json_input->Array_0 => json_input->Array_0@));
                    assert(decreases_to!(json_input->Array_0@ => json_input->Array_0@[i as int]));
                }
                item_generator(&a[i], lookup_key, out);
                assert(s.take(i + 1).drop_last() =~= s.take(i as int));
                assert(view_seq(out@) =~= start + gather_seq(s.take(i + 1), lookup_key@));
                i += 1;
            }
            assert(s.take(a@.len() as int) =~= s);
        },
        _ => {
            assert(view_seq(out@) =~= start + gather(json_input@, lookup_key@));
        },
    }
}

pub fn gather_values(v: &Value, key: &str) -> (r: Vec<Value>)
    ensures
        view_seq(r@) == gather(v@, key@),
{
    let mut out: Vec<Value> = Vec::new();
    proof { assert(view_seq(out@) =~= Seq::<Json>::empty()); }
    item_generator(v, key, &mut out);
    assert(view_seq(out@) =~= gather(v@, key@));
    out
}

// ---- sorted string sets ---------------------------------------------------

/// Position at which `x` goes in a sorted sequence: before the first element
/// that orders after it.
pub open spec fn str_insert_pos(s: Seq<Seq<char>>, x: Seq<char>, start: int) -> int
    decreases s.len() - start,
{
    if start < 0 || start >= s.len() {
        s.len() as int
    } else if seq_lt(x, s[start]) {
        start
    } else {
        str_insert_pos(s, x, start + 1)
    }
}

/// Set insertion into a sorted sequence of strings (`BTreeSet::insert`).
pub open spec fn set_add(s: Seq<Seq<char>>, x: Seq<char>) -> Seq<Seq<char>> {
    if s.contains(x) {
        s
    } else {
        s.insert(str_insert_pos(s, x, 0), x)
    }
}

/// Insert each of `items`, left to right.
pub open spec fn set_add_all(s: Seq<Seq<char>>, items: Seq<Seq<char>>) -> Seq<Seq<char>>
    decreases items.len(),
{
    if items.len() == 0 {
        s
    } else {
        set_add_all(set_add(s, items[0]), items.drop_first())
    }
}

proof fn lemma_str_insert_pos(s: Seq<Seq<char>>, x: Seq<char>, start: int)
    requires
        0 <= start <= s.len(),
    ensures
        start <= str_insert_pos(s, x, start) <= s.len(),
    decreases s.len() - start,
{
    if start < s.len() && !seq_lt(x, s[start]) {
        lemma_str_insert_pos(s, x, start + 1);
    }
}

pub(crate) fn str_pos(set: &Vec<String>, xc: &[char], Ghost(x): Ghost<Seq<char>>) -> (p: usize)
    requires
        xc@ == x,
    ensures
        p as int == str_insert_pos(strings_view(set@), x, 0),
        p <= set@.len(),
{
    let ghost s = strings_view(set@);
    proof { lemma_str_insert_pos(s, x, 0); }
    let mut p: usize = 0;
    while p < set.len()
        invariant
            p <= set@.len(),
            xc@ == x,
            s == strings_view(set@),
            s.len() == set@.len(),
            str_insert_pos(s, x, 0) == str_insert_pos(s, x, p as int),
        decreases set.len() - p,
    {
        let other = chars_of(set[p].as_str());
        if chars_lt(xc, other.as_slice()) {
            assert(str_insert_pos(s, x, p as int) == p as int);
            return p;
        }
        p += 1;
    }
    p
}

/// Add `x` to a sorted string set.
pub fn set_insert(set: &mut Vec<String>, x: String)
    ensures
        strings_view(final(set)@) == set_add(strings_view(old(set)@), x@),
{
    let ghost s = strings_view(set@);
    let xc = chars_of(x.as_str());
    let mut i: usize = 0;
    let mut found = false;
    while i < set.len()
        invariant
            i <= set@.len(),
            s == strings_view(set@),
            s.len() == set@.len(),
            found ==> s.contains(x@),
            !found ==> forall|j: int| 0 <= j < i ==> s[j] != x@,
        decreases set.len() - i,
    {
        if str_eq(set[i].as_str(), x.as_str()) {
            found = true;
            assert(s[i as int] == x@);
        }
        i += 1;
    }
    if found {
        return;
    }
    assert(!s.contains(x@));
    let p = str_pos(set, xc.as_slice(), Ghost(x@));
    let ghost xv = x@;
    set.insert(p, x);
    assert(strings_view(set@) =~= s.insert(p as int, xv));
}

/// Strictly increasing: a sorted set without repetitions.
pub open spec fn strictly_sorted(s: Seq<Seq<char>>) -> bool {
    forall|i: int, j: int| 0 <= i < j < s.len() ==> seq_lt(#[trigger] s[i], #[trigger] s[j])
}

pub proof fn lemma_str_insert_pos_bounds(s: Seq<Seq<char>>, x: Seq<char>, start: int)
    requires
        0 <= start <= s.len(),
    ensures
        start <= str_insert_pos(s, x, start) <= s.len(),
        forall|j: int| start <= j < str_insert_pos(s, x, start) ==> !seq_lt(x, #[trigger] s[j]),
        str_insert_pos(s, x, start) < s.len() ==> seq_lt(x, s[str_insert_pos(s, x, start)]),
    decreases s.len() - start,
{
    lemma_str_insert_pos(s, x, start);
    if start < s.len() && !seq_lt(x, s[start]) {
        lemma_str_insert_pos_bounds(s, x, start + 1);
    }
}

/// Adding to a sorted set keeps it sorted; it then holds what it held and
/// the new string.
pub proof fn lemma_set_add(s: Seq<Seq<char>>, x: Seq<char>)
    requires
        strictly_sorted(s),
    ensures
        strictly_sorted(set_add(s, x)),
        forall|y: Seq<char>| #[trigger] set_add(s, x).contains(y) <==> (s.contains(y) || y == x),
{
    if !s.contains(x) {
        lemma_str_insert_pos_bounds(s, x, 0);
        let p = str_insert_pos(s, x, 0);
        let r = s.insert(p, x);
        assert forall|j: int| 0 <= j < p implies seq_lt(#[trigger] s[j], x) by {
            assert(!seq_lt(x, s[j]));
            assert(s[j] != x);
            crate::strings::lemma_seq_lt_total(s[j], x);
        }
        assert forall|j: int| p <= j < s.len() implies seq_lt(x, #[trigger] s[j]) by {
            if j > p {
                assert(seq_lt(s[p], s[j]));
                crate::strings::lemma_seq_lt_transitive(x, s[p], s[j]);
            }
        }
        assert forall|a: int, b: int| 0 <= a < b < r.len() implies seq_lt(#[trigger] r[a], #[trigger] r[b]) by {
            if b < p {
                assert(r[a] == s[a] && r[b] == s[b]);
            } else if b == p {
                assert(r[a] == s[a]);
            } else if a < p {
                assert(r[a] == s[a] && r[b] == s[b - 1]);
                crate::strings::lemma_seq_lt_transitive(s[a], x, s[b - 1]);
            } else if a == p {
                assert(r[b] == s[b - 1]);
            } else {
                assert(r[a] == s[a - 1] && r[b] == s[b - 1]);
            }
        }
        assert forall|y: Seq<char>| (s.contains(y) || y == x) implies #[trigger] r.contains(y) by {
            if y == x {
                assert(r[p] == x);
            } else {
                let j = choose|j: int| 0 <= j < s.len() && s[j] == y;
                if j < p {
                    assert(r[j] == y);
                } else {
                    assert(r[j + 1] == y);
                }
            }
        }
        assert forall|y: Seq<char>| #[trigger] r.contains(y) implies (s.contains(y) || y == x) by {
            let j = choose|j: int| 0 <= j < r.len() && r[j] == y;
            if j < p {
                assert(s[j] == y);
            } else if j > p {
                assert(s[j - 1] == y);
            }
        }
    }
}

/// Adding strings to a sorted set keeps it sorted; it then holds what it held
/// and every string added: the set of `BTreeSet::extend`.
pub proof fn lemma_set_add_all(s: Seq<Seq<char>>, items: Seq<Seq<char>>)
    requires
        strictly_sorted(s),
    ensures
        strictly_sorted(set_add_all(s, items)),
        forall|y: Seq<char>| #[trigger] set_add_all(s, items).contains(y) <==> (s.contains(y) || items.contains(y)),
    decreases items.len(),
{
    if items.len() > 0 {
        lemma_set_add(s, items[0]);
        lemma_set_add_all(set_add(s, items[0]), items.drop_first());
        assert forall|y: Seq<char>| #[trigger] set_add_all(s, items).contains(y) <==> (s.contains(y) || items.contains(y)) by {
            assert(set_add(s, items[0]).contains(y) <==> (s.contains(y) || y == items[0]));
            if items.contains(y) && y != items[0] {
                let j = choose|j: int| 0 <= j < items.len() && items[j] == y;
                assert(items.drop_first()[j - 1] == y);
            }
            if items.drop_first().contains(y) {
                let j = choose|j: int| 0 <= j < items.drop_first().len() && items.drop_first()[j] == y;
                assert(items[j + 1] == y);
            }
            if y == items[0] {
                assert(items.contains(y));
            }
        }
    }
}

// ---- compatible strings ---------------------------------------------------

/// The strings among the values, in order.
pub open spec fn str_values(s: Seq<Json>) -> Seq<Seq<char>>
    decreases s.len(),
{
    if s.len() == 0 {
        Seq::empty()
    } else {
        str_values(s.drop_last()) + match s.last() {
            Json::Str(x) => seq![x],
            _ => Seq::empty(),
        }
    }
}

/// The strings an `enum` list contributes: all its strings, when its first
/// element is a string.
pub open spec fn enum_strings(j: Json) -> Seq<Seq<char>> {
    match j {
        Json::Array(a) => if a.len() > 0 && a[0] is Str {
            str_values(a)
        } else {
            Seq::empty()
        },
        _ => Seq::empty(),
    }
}

pub open spec fn flat_map_enums(s: Seq<Json>) -> Seq<Seq<char>>
    decreases s.len(),
{
    if s.len() == 0 {
        Seq::empty()
    } else {
        flat_map_enums(s.drop_last()) + enum_strings(s.last())
    }
}

/// A `const` value as a compatible string: the string itself, or its JSON text.
pub open spec fn const_string(j: Json) -> Seq<char> {
    match j {
        Json::Str(s) => s,
        other => json_text(other),
    }
}

pub open spec fn const_strings(s: Seq<Json>) -> Seq<Seq<char>>
    decreases s.len(),
{
    if s.len() == 0 {
        Seq::empty()
    } else {
        const_strings(s.drop_last()).push(const_string(s.last()))
    }
}

/// The compatible strings a node schema names, in the order they are found:
/// every string of every string `enum`, every `const` (stringified), every
/// string `pattern`.
pub open spec fn node_compatibles_list(j: Json) -> Seq<Seq<char>> {
    if j is Object {
        flat_map_enums(gather(j, "enum"@)) + const_strings(gather(j, "const"@)) + str_values(
            gather(j, "pattern"@),
        )
    } else {
        Seq::empty()
    }
}

/// The sorted set of compatible strings of a node schema.
pub open spec fn node_compatibles(j: Json) -> Seq<Seq<char>> {
    set_add_all(Seq::empty(), node_compatibles_list(j))
}

pub proof fn lemma_set_add_all_push(s: Seq<Seq<char>>, xs: Seq<Seq<char>>, x: Seq<char>)
    ensures
        set_add_all(s, xs.push(x)) == set_add(set_add_all(s, xs), x),
    decreases xs.len(),
{
    if xs.len() == 0 {
        assert(xs.push(x)[0] == x);
        assert(xs.push(x).drop_first() =~= Seq::<Seq<char>>::empty());
        assert(set_add_all(set_add(s, x), Seq::<Seq<char>>::empty()) == set_add(s, x));
        assert(set_add_all(s, xs) == s);
    } else {
        assert(xs.push(x)[0] == xs[0]);
        assert(xs.push(x).drop_first() =~= xs.drop_first().push(x));
        lemma_set_add_all_push(set_add(s, xs[0]), xs.drop_first(), x);
        assert(set_add_all(s, xs) == set_add_all(set_add(s, xs[0]), xs.drop_first()));
    }
}

pub proof fn lemma_set_add_all_append(s: Seq<Seq<char>>, xs: Seq<Seq<char>>, ys: Seq<Seq<char>>)
    ensures
        set_add_all(s, xs + ys) == set_add_all(set_add_all(s, xs), ys),
    decreases xs.len(),
{
    if xs.len() == 0 {
        assert(xs + ys =~= ys);
    } else {
        assert((xs + ys).drop_first() =~= xs.drop_first() + ys);
        lemma_set_add_all_append(set_add(s, xs[0]), xs.drop_first(), ys);
    }
}

/// Add the strings among `a` to the set, in order.
fn add_str_values(set: &mut Vec<String>, a: &Vec<Value>)
    ensures
        strings_view(final(set)@) == set_add_all(strings_view(old(set)@), str_values(view_seq(a@))),
{
    let ghost s0 = strings_view(set@);
    let ghost vs = view_seq(a@);
    proof { lemma_view_seq(a@); }
    let mut i: usize = 0;
    while i < a.len()
        invariant
            i <= a@.len(),
            vs == view_seq(a@),
            vs.len() == a@.len(),
            strings_view(set@) == set_add_all(s0, str_values(vs.take(i as int))),
        decreases a.len() - i,
    {
        assert(vs.take(i + 1).drop_last() =~= vs.take(i as int));
        proof { lemma_view_seq(a@); }
        assert(vs[i as int] == a@[i as int]@);
        assert(vs.take(i + 1).last() == a@[i as int]@);
        if let Value::Str(x) = &a[i] {
            set_insert(set, x.clone());
            proof { lemma_set_add_all_push(s0, str_values(vs.take(i as int)), x@); }
            assert(str_values(vs.take(i + 1)) =~= str_values(vs.take(i as int)).push(x@));
        } else {
            assert(str_values(vs.take(i + 1)) =~= str_values(vs.take(i as int)));
        }
        i += 1;
    }
    assert(vs.take(a@.len() as int) =~= vs);
}

fn add_node_compatibles(set: &mut Vec<String>, schema: &Value)
    ensures
        strings_view(final(set)@) == set_add_all(strings_view(old(set)@), node_compatibles_list(schema@)),
{
    let ghost s0 = strings_view(set@);
    if !schema.is_object() {
        assert(node_compatibles_list(schema@) =~= Seq::<Seq<char>>::empty());
        return;
    }
    let enums = gather_values(schema, "enum");
    let ghost es = view_seq(enums@);
    proof { lemma_view_seq(enums@); }
    let mut i: usize = 0;
    while i < enums.len()
        invariant
            i <= enums@.len(),
            es == view_seq(enums@),
            es.len() == enums@.len(),
            strings_view(set@) == set_add_all(s0, flat_map_enums(es.take(i as int))),
        decreases enums.len() - i,
    {
        assert(es.take(i + 1).drop_last() =~= es.take(i as int));
        proof { lemma_view_seq(enums@); }
        assert(es[i as int] == enums@[i as int]@);
        assert(es.take(i + 1).last() == enums@[i as int]@);
        let ghost before = strings_view(set@);
        match &enums[i] {
            Value::Array(a) => {
                proof { lemma_view_seq(a@); }
                if a.len() > 0 && matches!(a[0], Value::Str(_)) {
                    add_str_values(set, a);
                } 
            },
            _ => {},
        }
        proof {
            lemma_set_add_all_append(s0, flat_map_enums(es.take(i as int)), enum_strings(es[i as int]));
        }
        i += 1;
    }
    assert(es.take(enums@.len() as int) =~= es);
    let ghost after_enums = strings_view(set@);

    let consts = gather_values(schema, "const");
    let ghost cs = view_seq(consts@);
    proof { lemma_view_seq(consts@); }
    let mut i: usize = 0;
    while i < consts.len()
        invariant
            i <= consts@.len(),
            cs == view_seq(consts@),
            cs.len() == consts@.len(),
            strings_view(set@) == set_add_all(after_enums, const_strings(cs.take(i as int))),
        decreases consts.len() - i,
    {
        assert(cs.take(i + 1).drop_last() =~= cs.take(i as int));
        proof { lemma_view_seq(consts@); }
        assert(cs[i as int] == consts@[i as int]@);
        assert(cs.take(i + 1).last() == consts@[i as int]@);
        let t = match &consts[i] {
            Value::Str(x) => x.clone(),
            other => to_json_text(other),
        };
        set_insert(set, t);
        proof { lemma_set_add_all_push(after_enums, const_strings(cs.take(i as int)), const_string(cs[i as int])); }
        i += 1;
    }
    assert(cs.take(consts@.len() as int) =~= cs);
    let ghost after_consts = strings_view(set@);

    let patterns = gather_values(schema, "pattern");
    add_str_values(set, &patterns);
    proof {
        let l1 = flat_map_enums(gather(schema@, "enum"@));
        let l2 = const_strings(gather(schema@, "const"@));
        let l3 = str_values(gather(schema@, "pattern"@));
        lemma_set_add_all_append(s0, l1, l2);
        lemma_set_add_all_append(s0, l1 + l2, l3);
    }
}

/// Extract compatible strings from one node schema.
pub fn extract_node_compatibles_pub(schema: &Value) -> (r: Vec<String>)
    ensures
        strings_view(r@) == node_compatibles(schema@),
{
    extract_node_compatibles(schema)
}

/// Extract compatible strings from one node schema.
fn extract_node_compatibles(schema: &Value) -> (r: Vec<String>)
    ensures
        strings_view(r@) == node_compatibles(schema@),
{
    let mut set: Vec<String> = Vec::new();
    assert(strings_view(set@) =~= Seq::<Seq<char>>::empty());
    add_node_compatibles(&mut set, schema);
    set
}

pub open spec fn flat_map_nodes(s: Seq<Json>) -> Seq<Seq<char>>
    decreases s.len(),
{
    if s.len() == 0 {
        Seq::empty()
    } else {
        flat_map_nodes(s.drop_last()) + node_compatibles_list(s.last())
    }
}

/// The sorted set of compatible strings named by every `compatible` schema of a
/// document.
pub open spec fn document_compatibles(j: Json) -> Seq<Seq<char>> {
    if j is Object {
        set_add_all(Seq::empty(), flat_map_nodes(gather(j, "compatible"@)))
    } else {
        Seq::empty()
    }
}

/// Add the compatibles of every `compatible` schema of `schema` to the set.
pub fn add_compatibles(set: &mut Vec<String>, schema: &Value)
    ensures
        schema@ is Object ==> strings_view(final(set)@) == set_add_all(
            strings_view(old(set)@),
            flat_map_nodes(gather(schema@, "compatible"@)),
        ),
        !(schema@ is Object) ==> final(set)@ == old(set)@,
{
    if !schema.is_object() {
        return;
    }
    let ghost s0 = strings_view(set@);
    let nodes = gather_values(schema, "compatible");
    let ghost ns = view_seq(nodes@);
    proof { lemma_view_seq(nodes@); }
    let mut i: usize = 0;
    while i < nodes.len()
        invariant
            i <= nodes@.len(),
            ns == view_seq(nodes@),
            ns.len() == nodes@.len(),
            strings_view(set@) == set_add_all(s0, flat_map_nodes(ns.take(i as int))),
        decreases nodes.len() - i,
    {
        assert(ns.take(i + 1).drop_last() =~= ns.take(i as int));
        proof { lemma_view_seq(nodes@); }
        assert(ns[i as int] == nodes@[i as int]@);
        assert(ns.take(i + 1).last() == nodes@[i as int]@);
        add_node_compatibles(set, &nodes[i]);
        proof {
            lemma_set_add_all_append(s0, flat_map_nodes(ns.take(i as int)), node_compatibles_list(ns[i as int]));
        }
        i += 1;
    }
    assert(ns.take(nodes@.len() as int) =~= ns);
}

/// Extract compatible strings from every compatible schema in a document.
pub fn extract_compatibles(schema: &Value) -> (r: Vec<String>)
    ensures
        strings_view(r@) == document_compatibles(schema@),
{
    let mut set: Vec<String> = Vec::new();
    assert(strings_view(set@) =~= Seq::<Seq<char>>::empty());
    add_compatibles(&mut set, schema);
    set
}

} // verus!
