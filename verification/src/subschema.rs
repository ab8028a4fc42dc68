//! Fixups of whole node schemas: the interrupt properties and requirements,
//! the implicit node properties, the recursive walk over every subschema,
//! and the entry point [`fixup_schema`].
//!
//! Where a keyword that these steps write into holds a value of the wrong
//! kind (`allOf` that is not a list, `dependentRequired` that is not an
//! object), the step leaves that keyword as it is.
use vstd::prelude::*;
use crate::fixups::{
    fixup_schema_to_201909, lemma_skip_next, path_push, re_is_match, re_matches, schema_to_201909,
    walk, walk_properties_value,
};
use crate::json::{
    copy_value, field_contains, field_get, field_insert, field_insert_absent, field_replace_at,
    field_take, lemma_insert_same, lemma_view_entries, lemma_view_seq, member_entries, obj_get,
    obj_has, obj_insert, obj_insert_absent, obj_keys, obj_remove, put_object, take_object,
    view_entries, view_seq, Entries, Json, Value,
};
use crate::strings::{str_eq, strings_view};

verus! {

// ---- string lists ----------------------------------------------------------------

/// Index of the first string `s` in `a` at or after `start`, or -1.
pub open spec fn str_pos(a: Seq<Json>, s: Seq<char>, start: int) -> int
    decreases a.len() - start,
{
    if start < 0 || start >= a.len() {
        -1
    } else if a[start] == Json::Str(s) {
        start
    } else {
        str_pos(a, s, start + 1)
    }
}

/// `a` without its first occurrence of the string `s`.
pub open spec fn drop_str(a: Seq<Json>, s: Seq<char>) -> Seq<Json> {
    let p = str_pos(a, s, 0);
    if p >= 0 {
        a.remove(p)
    } else {
        a
    }
}

/// The value of `k` is a list that holds the string `s`.
pub open spec fn list_holds(v: Option<Json>, s: Seq<char>) -> bool {
    match v {
        Some(Json::Array(a)) => str_pos(a, s, 0) >= 0,
        _ => false,
    }
}

proof fn lemma_str_pos(a: Seq<Json>, s: Seq<char>, start: int)
    requires
        0 <= start,
    ensures
        -1 <= str_pos(a, s, start) < a.len(),
        str_pos(a, s, start) >= 0 ==> start <= str_pos(a, s, start),
    decreases a.len() - start,
{
    if start < a.len() && a[start] != Json::Str(s) {
        lemma_str_pos(a, s, start + 1);
    }
}

pub(crate) fn str_position(a: &Vec<Value>, s: &str) -> (r: Option<usize>)
    ensures
        match r {
            Some(p) => str_pos(view_seq(a@), s@, 0) == p as int && p < a@.len(),
            None => str_pos(view_seq(a@), s@, 0) == -1,
        },
{
    let ghost m = view_seq(a@);
    proof {
        lemma_view_seq(a@);
    }
    let mut i: usize = 0;
    while i < a.len()
        invariant
            i <= a@.len(),
            m == view_seq(a@),
            m.len() == a@.len(),
            forall|j: int| 0 <= j < a@.len() ==> #[trigger] m[j] == a@[j]@,
            str_pos(m, s@, 0) == str_pos(m, s@, i as int),
        decreases a.len() - i,
    {
        let hit = match &a[i] {
            Value::Str(t) => str_eq(t.as_str(), s),
            _ => false,
        };
        assert(m[i as int] == a@[i as int]@);
        if hit {
            return Some(i);
        }
        i += 1;
    }
    None
}

pub(crate) fn list_holds_value(v: Option<&Value>, s: &str) -> (r: bool)
    ensures
        r == list_holds(crate::json::opt_view(v), s@),
{
    match v {
        Some(Value::Array(a)) => str_position(a, s).is_some(),
        _ => false,
    }
}

/// Drop the first occurrence of the string `s` from a list.
fn drop_str_value(a: &mut Vec<Value>, s: &str)
    ensures
        view_seq(final(a)@) == drop_str(view_seq(old(a)@), s@),
{
    let ghost before = view_seq(a@);
    proof {
        lemma_view_seq(a@);
    }
    match str_position(a, s) {
        Some(p) => {
            a.remove(p);
            proof {
                lemma_view_seq(a@);
                assert(view_seq(a@) =~= before.remove(p as int));
            }
        },
        None => {},
    }
}

// ---- small documents ----------------------------------------------------------------

/// `{k: v}`
pub open spec fn single_entry(k: Seq<char>, v: Json) -> Json {
    Json::Object(seq![(k, v)])
}

/// `{"required": [name]}`
pub open spec fn required_one(name: Seq<char>) -> Json {
    single_entry("required"@, Json::Array(seq![Json::Str(name)]))
}

/// `[{"required": ["interrupts"]}, {"required": ["interrupts-extended"]}]`
pub open spec fn interrupt_reqlist() -> Json {
    Json::Array(seq![required_one("interrupts"@), required_one("interrupts-extended"@)])
}

/// `{prop: {"oneOf": <interrupt_reqlist>}}`
pub open spec fn interrupt_dependency(prop: Seq<char>) -> Json {
    single_entry(prop, single_entry("oneOf"@, interrupt_reqlist()))
}

pub(crate) fn single_entry_value(k: &str, v: Value) -> (r: Value)
    ensures
        r@ == single_entry(k@, v@),
{
    let ghost vv = v@;
    let mut o: Vec<(String, Value)> = Vec::new();
    o.push((k.to_owned(), v));
    proof {
        lemma_view_entries(o@);
        assert(view_entries(o@) =~= seq![(k@, vv)]);
    }
    Value::Object(o)
}

pub(crate) fn array_value(items: Vec<Value>) -> (r: Value)
    ensures
        r@ == Json::Array(view_seq(items@)),
{
    Value::Array(items)
}

fn required_one_value(name: &str) -> (r: Value)
    ensures
        r@ == required_one(name@),
{
    let item = Value::Str(name.to_owned());
    let ghost iv = item@;
    let mut list: Vec<Value> = Vec::new();
    list.push(item);
    proof {
        lemma_view_seq(list@);
        assert(view_seq(list@) =~= seq![iv]);
    }
    single_entry_value("required", array_value(list))
}

fn interrupt_reqlist_value() -> (r: Value)
    ensures
        r@ == interrupt_reqlist(),
{
    let a = required_one_value("interrupts");
    let b = required_one_value("interrupts-extended");
    let ghost av = a@;
    let ghost bv = b@;
    let mut list: Vec<Value> = Vec::new();
    list.push(a);
    list.push(b);
    proof {
        lemma_view_seq(list@);
        assert(view_seq(list@) =~= seq![av, bv]);
    }
    array_value(list)
}

// ---- interrupts --------------------------------------------------------------------

/// Under `properties`: `interrupts` or `interrupt-controller` imply
/// `interrupt-parent`, and `interrupts` is copied to `interrupts-extended`.
pub open spec fn irq_properties(j: Json) -> Json {
    match j.get("properties"@) {
        Some(Json::Object(p)) => {
            let p1 = if (obj_has(p, "interrupts"@) || obj_has(p, "interrupt-controller"@))
                && !obj_has(p, "interrupt-parent"@) {
                obj_insert(p, "interrupt-parent"@, Json::Bool(true))
            } else {
                p
            };
            let p2 = if obj_has(p, "interrupts"@) && !obj_has(p, "interrupts-extended"@) {
                obj_insert(p1, "interrupts-extended"@, obj_get(p, "interrupts"@)->Some_0)
            } else {
                p1
            };
            j.insert("properties"@, Json::Object(p2))
        },
        _ => j,
    }
}

/// A required `interrupts` becomes "`interrupts` or `interrupts-extended`":
/// the alternative goes to `oneOf`, or, where `oneOf` is taken, as a `oneOf`
/// appended to `allOf`; `interrupts` leaves `required`, which goes when empty.
/// Nothing changes directly under a `oneOf`.
pub open spec fn irq_required(j: Json, path: Seq<Seq<char>>) -> Json {
    let last_is_oneof = path.len() > 0 && path.last() == "oneOf"@;
    if !list_holds(j.get("required"@), "interrupts"@) || last_is_oneof {
        j
    } else {
        let alt = single_entry("oneOf"@, interrupt_reqlist());
        let j1 = if j.has("oneOf"@) {
            match j.get("allOf"@) {
                None => j.insert("allOf"@, Json::Array(seq![alt])),
                Some(Json::Array(a)) => j.insert("allOf"@, Json::Array(a.push(alt))),
                Some(_) => j,
            }
        } else {
            j.insert("oneOf"@, interrupt_reqlist())
        };
        match j1.get("required"@) {
            Some(Json::Array(a)) => {
                let a2 = drop_str(a, "interrupts"@);
                if a2.len() == 0 {
                    j1.remove("required"@)
                } else {
                    j1.insert("required"@, Json::Array(a2))
                }
            },
            _ => j1,
        }
    }
}

/// One dependency `prop` of `dependentRequired` that lists `interrupts`:
/// `dependentSchemas` becomes `{prop: {"oneOf": ...}}` and `interrupts` leaves
/// the list; the flag tells that the list became empty and was removed, which
/// ends the pass over the dependencies.
pub open spec fn dep_step(j: Json, prop: Seq<char>) -> (Json, bool) {
    let hit = match j.get("dependentRequired"@) {
        Some(Json::Object(d)) => list_holds(obj_get(d, prop), "interrupts"@),
        _ => false,
    };
    if !hit {
        (j, false)
    } else {
        let j1 = j.insert("dependentSchemas"@, interrupt_dependency(prop));
        match j1.get("dependentRequired"@) {
            Some(Json::Object(d1)) => match obj_get(d1, prop) {
                Some(Json::Array(a1)) => {
                    let a2 = drop_str(a1, "interrupts"@);
                    if a2.len() == 0 {
                        (j1.insert("dependentRequired"@, Json::Object(obj_remove(d1, prop))), true)
                    } else {
                        (
                            j1.insert(
                                "dependentRequired"@,
                                Json::Object(obj_insert(d1, prop, Json::Array(a2))),
                            ),
                            false,
                        )
                    }
                },
                _ => (j1, false),
            },
            _ => (j1, false),
        }
    }
}

/// The pass over the dependencies `keys[i..]`, stopping after a removal.
pub open spec fn dep_pass(j: Json, keys: Seq<Seq<char>>, i: int) -> Json
    decreases keys.len() - i,
{
    if i < 0 || i >= keys.len() {
        j
    } else {
        let st = dep_step(j, keys[i]);
        if st.1 {
            st.0
        } else {
            dep_pass(st.0, keys, i + 1)
        }
    }
}

/// `dependentRequired`: copy `interrupts` to `interrupts-extended`, move the
/// `interrupts` dependencies to `dependentSchemas`, and drop the keyword when
/// nothing is left in it.
pub open spec fn irq_dependent_required(j: Json) -> Json {
    match j.get("dependentRequired"@) {
        Some(Json::Object(d)) => {
            let d1 = if obj_has(d, "interrupts"@) && !obj_has(d, "interrupts-extended"@) {
                obj_insert(d, "interrupts-extended"@, obj_get(d, "interrupts"@)->Some_0)
            } else {
                d
            };
            let j1 = j.insert("dependentRequired"@, Json::Object(d1));
            let j2 = dep_pass(j1, obj_keys(d1), 0);
            match j2.get("dependentRequired"@) {
                Some(Json::Object(m)) => if m.len() == 0 {
                    j2.remove("dependentRequired"@)
                } else {
                    j2
                },
                _ => j2,
            }
        },
        _ => j,
    }
}

/// `dependentSchemas`: copy `interrupts` to `interrupts-extended`.
pub open spec fn irq_dependent_schemas(j: Json) -> Json {
    match j.get("dependentSchemas"@) {
        Some(Json::Object(d)) => if obj_has(d, "interrupts"@) && !obj_has(
            d,
            "interrupts-extended"@,
        ) {
            j.insert(
                "dependentSchemas"@,
                Json::Object(obj_insert(d, "interrupts-extended"@, obj_get(d, "interrupts"@)->Some_0)),
            )
        } else {
            j
        },
        _ => j,
    }
}

/// All interrupt fixups of a schema object.
pub open spec fn fixed_interrupts(j: Json, path: Seq<Seq<char>>) -> Json {
    if !(j is Object) {
        j
    } else {
        irq_dependent_schemas(irq_dependent_required(irq_required(irq_properties(j), path)))
    }
}

/// Copy member `from` of an object's entries to `to` unless `to` is present.
fn copy_member_absent(o: &mut Vec<(String, Value)>, from: &str, to: &str)
    ensures
        view_entries(final(o)@) == if obj_has(view_entries(old(o)@), from@) && !obj_has(
            view_entries(old(o)@),
            to@,
        ) {
            obj_insert(view_entries(old(o)@), to@, obj_get(view_entries(old(o)@), from@)->Some_0)
        } else {
            view_entries(old(o)@)
        },
{
    if !field_contains(o, to) {
        match field_get(o, from) {
            Some(v) => {
                let c = copy_value(v);
                field_insert(o, to.to_owned(), c);
            },
            None => {},
        }
    }
}

fn irq_properties_exec(schema: &mut Value)
    ensures
        final(schema)@ == irq_properties(old(schema)@),
{
    let ghost j0 = schema@;
    match schema.take("properties") {
        Some((i, Value::Object(mut p))) => {
            let ghost pm = view_entries(p@);
            let has_irq = field_contains(&p, "interrupts");
            let has_ctrl = field_contains(&p, "interrupt-controller");
            let has_parent = field_contains(&p, "interrupt-parent");
            let has_ext = field_contains(&p, "interrupts-extended");
            let irq = match field_get(&p, "interrupts") {
                Some(v) => Some(copy_value(v)),
                None => None,
            };
            if (has_irq || has_ctrl) && !has_parent {
                field_insert(&mut p, "interrupt-parent".to_owned(), Value::Bool(true));
            }
            if !has_ext {
                match irq {
                    Some(v) => field_insert(&mut p, "interrupts-extended".to_owned(), v),
                    None => {},
                }
            }
            let ghost pv = Json::Object(view_entries(p@));
            schema.put_at(i, Value::Object(p));
            assert(j0.insert("properties"@, pv) == schema@);
        },
        Some((i, other)) => {
            let ghost ov = other@;
            schema.put_at(i, other);
            proof {
                assert(j0.insert("properties"@, ov) == schema@);
                lemma_insert_same(j0, "properties"@, ov);
            }
        },
        None => {},
    }
}

fn irq_required_exec(schema: &mut Value, path: &Vec<String>)
    ensures
        final(schema)@ == irq_required(old(schema)@, strings_view(path@)),
{
    let ghost j0 = schema@;
    let has_req = list_holds_value(schema.get("required"), "interrupts");
    let n = path.len();
    let last_is_oneof = n > 0 && str_eq(path[n - 1].as_str(), "oneOf");
    proof {
        if n > 0 {
            assert(strings_view(path@).last() == path@[n - 1]@);
        }
    }
    if !has_req || last_is_oneof {
        return;
    }
    let reqlist = interrupt_reqlist_value();
    if schema.has("oneOf") {
        let alt = single_entry_value("oneOf", reqlist);
        match schema.take("allOf") {
            None => {
                let mut list: Vec<Value> = Vec::new();
                let ghost altv = alt@;
                list.push(alt);
                proof {
                    lemma_view_seq(list@);
                    assert(view_seq(list@) =~= seq![altv]);
                }
                schema.insert("allOf", Value::Array(list));
            },
            Some((i, Value::Array(mut a))) => {
                let ghost olda = a@;
                let ghost altv = alt@;
                a.push(alt);
                proof {
                    lemma_view_seq(a@);
                    lemma_view_seq(olda);
                    assert(view_seq(a@) =~= view_seq(olda).push(altv));
                }
                let ghost nv = Json::Array(view_seq(a@));
                schema.put_at(i, Value::Array(a));
                assert(j0.insert("allOf"@, nv) == schema@);
            },
            Some((i, other)) => {
                let ghost ov = other@;
                schema.put_at(i, other);
                proof {
                    assert(j0.insert("allOf"@, ov) == schema@);
                    lemma_insert_same(j0, "allOf"@, ov);
                }
            },
        }
    } else {
        schema.insert("oneOf", reqlist);
    }
    let ghost j1 = schema@;
    match schema.take("required") {
        Some((i, Value::Array(mut a))) => {
            drop_str_value(&mut a, "interrupts");
            proof {
                lemma_view_seq(a@);
            }
            if a.len() == 0 {
                schema.remove("required");
            } else {
                let ghost nv = Json::Array(view_seq(a@));
                schema.put_at(i, Value::Array(a));
                assert(j1.insert("required"@, nv) == schema@);
            }
        },
        Some((i, other)) => {
            let ghost ov = other@;
            schema.put_at(i, other);
            proof {
                assert(j1.insert("required"@, ov) == schema@);
                lemma_insert_same(j1, "required"@, ov);
            }
        },
        None => {},
    }
}

/// The keys of an object's entries, in order.
pub(crate) fn entry_keys(o: &Vec<(String, Value)>) -> (r: Vec<String>)
    ensures
        strings_view(r@) == obj_keys(view_entries(o@)),
{
    proof {
        lemma_view_entries(o@);
    }
    let mut out: Vec<String> = Vec::new();
    let mut i: usize = 0;
    while i < o.len()
        invariant
            i <= o@.len(),
            view_entries(o@).len() == o@.len(),
            forall|j: int| 0 <= j < o@.len() ==> #[trigger] view_entries(o@)[j] == (o@[j].0@, o@[j].1@),
            out@.len() == i,
            forall|j: int| 0 <= j < i ==> #[trigger] out@[j]@ == o@[j].0@,
        decreases o.len() - i,
    {
        out.push(o[i].0.clone());
        i += 1;
    }
    assert(strings_view(out@) =~= obj_keys(view_entries(o@)));
    out
}

fn dep_step_exec(schema: &mut Value, prop: &str) -> (stop: bool)
    ensures
        (final(schema)@, stop) == dep_step(old(schema)@, prop@),
{
    let ghost j0 = schema@;
    let hit = match schema.get("dependentRequired") {
        Some(Value::Object(d)) => list_holds_value(field_get(d, prop), "interrupts"),
        _ => false,
    };
    if !hit {
        return false;
    }
    let dep = interrupt_reqlist_value();
    let dep = single_entry_value(prop, single_entry_value("oneOf", dep));
    schema.insert("dependentSchemas", dep);
    let ghost j1 = schema@;
    match schema.take("dependentRequired") {
        Some((i, Value::Object(mut d))) => {
            let ghost d1 = view_entries(d@);
            let taken = field_take(&mut d, prop);
            proof {
                lemma_view_entries(d@);
            }
            match taken {
                Some((pi, Value::Array(mut a))) => {
                    drop_str_value(&mut a, "interrupts");
                    proof {
                        lemma_view_seq(a@);
                    }
                    if a.len() == 0 {
                        crate::json::field_remove(&mut d, prop);
                        let ghost dv = Json::Object(view_entries(d@));
                        schema.put_at(i, Value::Object(d));
                        assert(j1.insert("dependentRequired"@, dv) == schema@);
                        true
                    } else {
                        let ghost av = Json::Array(view_seq(a@));
                        field_replace_at(&mut d, pi, Value::Array(a));
                        assert(obj_insert(d1, prop@, av) == view_entries(d@));
                        let ghost dv = Json::Object(view_entries(d@));
                        schema.put_at(i, Value::Object(d));
                        assert(j1.insert("dependentRequired"@, dv) == schema@);
                        false
                    }
                },
                Some((pi, other)) => {
                    let ghost ov = other@;
                    field_replace_at(&mut d, pi, other);
                    assert(obj_insert(d1, prop@, ov) == view_entries(d@));
                    proof {
                        lemma_insert_same(Json::Object(d1), prop@, ov);
                        assert(Json::Object(d1).insert(prop@, ov) == Json::Object(d1));
                    }
                    let ghost dv = Json::Object(view_entries(d@));
                    schema.put_at(i, Value::Object(d));
                    assert(j1.insert("dependentRequired"@, dv) == schema@);
                    proof {
                        lemma_insert_same(j1, "dependentRequired"@, dv);
                    }
                    false
                },
                None => {
                    let ghost dv = Json::Object(view_entries(d@));
                    schema.put_at(i, Value::Object(d));
                    assert(j1.insert("dependentRequired"@, dv) == schema@);
                    proof {
                        lemma_insert_same(j1, "dependentRequired"@, dv);
                    }
                    false
                },
            }
        },
        Some((i, other)) => {
            let ghost ov = other@;
            schema.put_at(i, other);
            proof {
                assert(j1.insert("dependentRequired"@, ov) == schema@);
                lemma_insert_same(j1, "dependentRequired"@, ov);
            }
            false
        },
        None => false,
    }
}

fn irq_dependent_required_exec(schema: &mut Value)
    ensures
        final(schema)@ == irq_dependent_required(old(schema)@),
{
    let ghost j0 = schema@;
    let keys = match schema.take("dependentRequired") {
        Some((i, Value::Object(mut d))) => {
            copy_member_absent(&mut d, "interrupts", "interrupts-extended");
            let keys = entry_keys(&d);
            let ghost dv = Json::Object(view_entries(d@));
            schema.put_at(i, Value::Object(d));
            assert(j0.insert("dependentRequired"@, dv) == schema@);
            keys
        },
        Some((i, other)) => {
            let ghost ov = other@;
            schema.put_at(i, other);
            proof {
                assert(j0.insert("dependentRequired"@, ov) == schema@);
                lemma_insert_same(j0, "dependentRequired"@, ov);
            }
            return;
        },
        None => {
            return;
        },
    };
    let ghost j1 = schema@;
    let ghost kv = strings_view(keys@);
    let mut k: usize = 0;
    let mut done = false;
    while k < keys.len() && !done
        invariant
            k <= keys@.len(),
            kv == strings_view(keys@),
            kv.len() == keys@.len(),
            dep_pass(j1, kv, 0) == if done {
                schema@
            } else {
                dep_pass(schema@, kv, k as int)
            },
        decreases keys.len() - k,
    {
        assert(kv[k as int] == keys@[k as int]@);
        let ghost before = schema@;
        let stop = dep_step_exec(schema, keys[k].as_str());
        assert(dep_pass(before, kv, k as int) == if stop {
            schema@
        } else {
            dep_pass(schema@, kv, k + 1)
        });
        k += 1;
        if stop {
            done = true;
        }
    }
    assert(dep_pass(j1, kv, 0) == schema@);
    let empty = match schema.get("dependentRequired") {
        Some(Value::Object(m)) => {
            proof {
                lemma_view_entries(m@);
            }
            m.len() == 0
        },
        _ => false,
    };
    if empty {
        schema.remove("dependentRequired");
    }
}

fn irq_dependent_schemas_exec(schema: &mut Value)
    ensures
        final(schema)@ == irq_dependent_schemas(old(schema)@),
{
    let ghost j0 = schema@;
    match schema.take("dependentSchemas") {
        Some((i, Value::Object(mut d))) => {
            copy_member_absent(&mut d, "interrupts", "interrupts-extended");
            let ghost dv = Json::Object(view_entries(d@));
            schema.put_at(i, Value::Object(d));
            assert(j0.insert("dependentSchemas"@, dv) == schema@);
            proof {
                match j0.get("dependentSchemas"@) {
                    Some(Json::Object(dm)) => {
                        if !(obj_has(dm, "interrupts"@) && !obj_has(dm, "interrupts-extended"@)) {
                            lemma_insert_same(j0, "dependentSchemas"@, dv);
                        }
                    },
                    _ => {},
                }
            }
        },
        Some((i, other)) => {
            let ghost ov = other@;
            schema.put_at(i, other);
            proof {
                assert(j0.insert("dependentSchemas"@, ov) == schema@);
                lemma_insert_same(j0, "dependentSchemas"@, ov);
            }
        },
        None => {},
    }
}

/// Apply the interrupt fixups to a schema object.
fn fixup_interrupts(schema: &mut Value, path: &Vec<String>)
    ensures
        final(schema)@ == fixed_interrupts(old(schema)@, strings_view(path@)),
{
    if !schema.is_object() {
        return;
    }
    irq_properties_exec(schema);
    irq_required_exec(schema, path);
    irq_dependent_required_exec(schema);
    irq_dependent_schemas_exec(schema);
}

// ---- implicit node properties ---------------------------------------------------

/// Names of the node's properties and property patterns.
pub open spec fn node_keys(j: Json) -> Seq<Seq<char>> {
    obj_keys(member_entries(j, "properties"@)) + obj_keys(member_entries(j, "patternProperties"@))
}

pub open spec fn pinctrl_pattern() -> Seq<char> {
    "^pinctrl-[0-9]"@
}

/// Some name is a numbered `pinctrl-N` property.
pub open spec fn any_pinctrl(keys: Seq<Seq<char>>) -> bool {
    exists|i: int| 0 <= i < keys.len() && #[trigger] re_matches(pinctrl_pattern(), keys[i])
}

/// The properties that `clocks` brings along, each allowed as `true`.
pub open spec fn clock_props(m: Entries) -> Entries {
    let t = Json::Bool(true);
    let m = obj_insert(m, "assigned-clocks"@, t);
    let m = obj_insert(m, "assigned-clock-rates-u64"@, t);
    let m = obj_insert(m, "assigned-clock-rates"@, t);
    let m = obj_insert(m, "assigned-clock-parents"@, t);
    obj_insert(m, "assigned-clock-sscs"@, t)
}

/// The properties every node may have, allowed as `true` where not given.
pub open spec fn common_node_props(m: Entries) -> Entries {
    let t = Json::Bool(true);
    let m = obj_insert_absent(m, "phandle"@, t);
    let m = obj_insert_absent(m, "status"@, t);
    let m = obj_insert_absent(m, "secure-status"@, t);
    let m = obj_insert_absent(m, "$nodename"@, t);
    let m = obj_insert_absent(m, "bootph-pre-sram"@, t);
    let m = obj_insert_absent(m, "bootph-verify"@, t);
    let m = obj_insert_absent(m, "bootph-pre-ram"@, t);
    let m = obj_insert_absent(m, "bootph-some-ram"@, t);
    obj_insert_absent(m, "bootph-all"@, t)
}

/// Add the properties a node has implicitly, for schemas that restrict
/// undefined properties.
pub open spec fn fixed_node_props(j: Json) -> Json {
    if !(j is Object) || (!j.has("unevaluatedProperties"@) && !j.has("additionalProperties"@)) {
        j
    } else {
        let keys = node_keys(j);
        let t = Json::Bool(true);
        let j1 = if keys.contains("clocks"@) && !keys.contains("assigned-clocks"@) {
            put_object(j, "properties"@, clock_props(member_entries(j, "properties"@)))
        } else {
            j
        };
        let j2 = if keys.contains("ranges"@) {
            put_object(
                j1,
                "properties"@,
                obj_insert_absent(member_entries(j1, "properties"@), "dma-ranges"@, t),
            )
        } else {
            j1
        };
        if j2.get("additionalProperties"@) == Some(t) || j2.get("unevaluatedProperties"@) == Some(t) {
            j2
        } else {
            let j3 = put_object(j2, "properties"@, common_node_props(member_entries(j2, "properties"@)));
            if any_pinctrl(keys) {
                j3
            } else {
                let j4 = put_object(
                    j3,
                    "properties"@,
                    obj_insert_absent(member_entries(j3, "properties"@), "pinctrl-names"@, t),
                );
                put_object(
                    j4,
                    "patternProperties"@,
                    obj_insert(member_entries(j4, "patternProperties"@), "^pinctrl-[0-9]+$"@, t),
                )
            }
        }
    }
}

fn push_keys(out: &mut Vec<String>, v: Option<&Value>)
    ensures
        strings_view(final(out)@) == strings_view(old(out)@) + obj_keys(
            match crate::json::opt_view(v) {
                Some(Json::Object(m)) => m,
                _ => Seq::<(Seq<char>, Json)>::empty(),
            },
        ),
{
    let ghost start = strings_view(out@);
    match v {
        Some(Value::Object(o)) => {
            let keys = entry_keys(o);
            let ghost kv = strings_view(keys@);
            let mut i: usize = 0;
            while i < keys.len()
                invariant
                    i <= keys@.len(),
                    kv == strings_view(keys@),
                    strings_view(out@) == start + kv.take(i as int),
                decreases keys.len() - i,
            {
                let ghost prev = out@;
                let key = keys[i].clone();
                assert(key@ == kv[i as int]);
                out.push(key);
                assert(strings_view(out@) =~= strings_view(prev).push(kv[i as int]));
                i += 1;
                assert(strings_view(out@) =~= start + kv.take(i as int));
            }
            assert(kv.take(i as int) =~= kv);
        },
        _ => {
            assert(strings_view(out@) =~= start + Seq::<Seq<char>>::empty());
        },
    }
}

fn node_keys_exec(schema: &Value) -> (r: Vec<String>)
    ensures
        strings_view(r@) == node_keys(schema@),
{
    let mut out: Vec<String> = Vec::new();
    assert(strings_view(out@) =~= Seq::<Seq<char>>::empty());
    push_keys(&mut out, schema.get("properties"));
    push_keys(&mut out, schema.get("patternProperties"));
    assert(strings_view(out@) =~= node_keys(schema@));
    out
}

pub(crate) fn keys_contain(keys: &Vec<String>, s: &str) -> (r: bool)
    ensures
        r == strings_view(keys@).contains(s@),
{
    let ghost kv = strings_view(keys@);
    let mut i: usize = 0;
    while i < keys.len()
        invariant
            i <= keys@.len(),
            kv == strings_view(keys@),
            forall|j: int| 0 <= j < i ==> kv[j] != s@,
        decreases keys.len() - i,
    {
        if str_eq(keys[i].as_str(), s) {
            assert(kv[i as int] == s@);
            return true;
        }
        i += 1;
    }
    false
}

fn any_pinctrl_exec(keys: &Vec<String>) -> (r: bool)
    ensures
        r == any_pinctrl(strings_view(keys@)),
{
    let ghost kv = strings_view(keys@);
    let mut i: usize = 0;
    while i < keys.len()
        invariant
            i <= keys@.len(),
            kv == strings_view(keys@),
            forall|j: int| 0 <= j < i ==> !#[trigger] re_matches(pinctrl_pattern(), kv[j]),
        decreases keys.len() - i,
    {
        if re_is_match("^pinctrl-[0-9]", keys[i].as_str()) {
            assert(re_matches(pinctrl_pattern(), kv[i as int]));
            return true;
        }
        i += 1;
    }
    false
}

pub(crate) fn member_is_true(schema: &Value, k: &str) -> (r: bool)
    ensures
        r == (schema@.get(k@) == Some(Json::Bool(true))),
{
    match schema.get(k) {
        Some(v) => v.is_true(),
        None => false,
    }
}

/// Add the properties a node has implicitly.
fn fixup_node_props(schema: &mut Value)
    ensures
        final(schema)@ == fixed_node_props(old(schema)@),
{
    if !schema.is_object() || (!schema.has("unevaluatedProperties") && !schema.has(
        "additionalProperties",
    )) {
        return;
    }
    let keys = node_keys_exec(schema);
    if keys_contain(&keys, "clocks") && !keys_contain(&keys, "assigned-clocks") {
        match take_object(schema, "properties") {
            Some(mut p) => {
                field_insert(&mut p, "assigned-clocks".to_owned(), Value::Bool(true));
                field_insert(&mut p, "assigned-clock-rates-u64".to_owned(), Value::Bool(true));
                field_insert(&mut p, "assigned-clock-rates".to_owned(), Value::Bool(true));
                field_insert(&mut p, "assigned-clock-parents".to_owned(), Value::Bool(true));
                field_insert(&mut p, "assigned-clock-sscs".to_owned(), Value::Bool(true));
                schema.insert("properties", Value::Object(p));
            },
            None => {},
        }
    }
    if keys_contain(&keys, "ranges") {
        match take_object(schema, "properties") {
            Some(mut p) => {
                field_insert_absent(&mut p, "dma-ranges".to_owned(), Value::Bool(true));
                schema.insert("properties", Value::Object(p));
            },
            None => {},
        }
    }
    if member_is_true(schema, "additionalProperties") || member_is_true(
        schema,
        "unevaluatedProperties",
    ) {
        return;
    }
    match take_object(schema, "properties") {
        Some(mut p) => {
            field_insert_absent(&mut p, "phandle".to_owned(), Value::Bool(true));
            field_insert_absent(&mut p, "status".to_owned(), Value::Bool(true));
            field_insert_absent(&mut p, "secure-status".to_owned(), Value::Bool(true));
            field_insert_absent(&mut p, "$nodename".to_owned(), Value::Bool(true));
            field_insert_absent(&mut p, "bootph-pre-sram".to_owned(), Value::Bool(true));
            field_insert_absent(&mut p, "bootph-verify".to_owned(), Value::Bool(true));
            field_insert_absent(&mut p, "bootph-pre-ram".to_owned(), Value::Bool(true));
            field_insert_absent(&mut p, "bootph-some-ram".to_owned(), Value::Bool(true));
            field_insert_absent(&mut p, "bootph-all".to_owned(), Value::Bool(true));
            schema.insert("properties", Value::Object(p));
        },
        None => {},
    }
    if any_pinctrl_exec(&keys) {
        return;
    }
    match take_object(schema, "properties") {
        Some(mut p) => {
            field_insert_absent(&mut p, "pinctrl-names".to_owned(), Value::Bool(true));
            schema.insert("properties", Value::Object(p));
        },
        None => {},
    }
    match take_object(schema, "patternProperties") {
        Some(mut pp) => {
            field_insert(&mut pp, "^pinctrl-[0-9]+$".to_owned(), Value::Bool(true));
            schema.insert("patternProperties", Value::Object(pp));
        },
        None => {},
    }
}

// ---- the walk over subschemas -------------------------------------------------------

/// Nesting bound of the walks: the largest `u64`, which no document that fits
/// in memory reaches.
pub const WALK_FUEL: u64 = 0xffff_ffff_ffff_ffff;

/// Keywords whose value is one subschema.
pub open spec fn is_single_schema_key(k: Seq<char>) -> bool {
    k == "select"@ || k == "if"@ || k == "then"@ || k == "else"@ || k == "not"@
        || k == "additionalProperties"@
}

/// Keywords whose value is a list of subschemas.
pub open spec fn is_schema_list_key(k: Seq<char>) -> bool {
    k == "allOf"@ || k == "anyOf"@ || k == "oneOf"@
}

/// Keywords whose value maps names to property schemas.
pub open spec fn is_schema_map_key(k: Seq<char>) -> bool {
    k == "dependentRequired"@ || k == "dependentSchemas"@ || k == "dependencies"@
        || k == "properties"@ || k == "patternProperties"@ || k == "$defs"@ || k == "definitions"@
}

/// Properties whose schema is a matrix of variable size; only their `$ref`
/// is kept.
pub open spec fn is_variable_matrix_prop(k: Seq<char>) -> bool {
    k == "fsl,pins"@ || k == "qcom,board-id"@
}

/// `{"$ref": ...}` with the `$ref` of `c`, or `{}` where it has none.
pub open spec fn ref_only(c: Json) -> Json {
    match c.get("$ref"@) {
        Some(r) => single_entry("$ref"@, r),
        None => Json::Object(Seq::empty()),
    }
}

/// The fixups of a node schema or subschema, applied down the whole tree.
pub open spec fn fixed_sub(j: Json, path: Seq<Seq<char>>, fuel: nat) -> Json
    decreases fuel, 3int, 0int,
{
    if fuel == 0 || !(j is Object) {
        j
    } else {
        let j1 = schema_to_201909(j.remove("description"@));
        let j2 = fixed_node_props(fixed_interrupts(j1, path));
        let j3 = if j2.get("additionalProperties"@) == Some(Json::Bool(true)) {
            j2.remove("additionalProperties"@)
        } else {
            j2
        };
        sub_keys(j3, obj_keys(j3.entries()), 0, path, fuel)
    }
}

/// [`fixed_sub`] on each schema of a list.
pub open spec fn sub_seq(a: Seq<Json>, path: Seq<Seq<char>>, fuel: nat) -> Seq<Json>
    decreases fuel, 4int, a.len(),
{
    if a.len() == 0 {
        a
    } else {
        sub_seq(a.drop_last(), path, fuel).push(fixed_sub(a.last(), path, fuel))
    }
}

/// The keys `keys[i..]` of a schema, in turn.
pub open spec fn sub_keys(j: Json, keys: Seq<Seq<char>>, i: int, path: Seq<Seq<char>>, fuel: nat) -> Json
    decreases fuel, 2int, keys.len() - i,
{
    if fuel == 0 || i < 0 || i >= keys.len() {
        j
    } else {
        sub_keys(sub_key(j, keys[i], path, fuel), keys, i + 1, path, fuel)
    }
}

/// Descend into the subschemas under key `k`.
pub open spec fn sub_key(j: Json, k: Seq<char>, path: Seq<Seq<char>>, fuel: nat) -> Json
    decreases fuel, 1int, 0int,
{
    if fuel == 0 {
        j
    } else {
        let p = path.push(k);
        let ja = if is_single_schema_key(k) {
            match j.get(k) {
                Some(c) => j.insert(k, fixed_sub(c, p, (fuel - 1) as nat)),
                None => j,
            }
        } else {
            j
        };
        let jb = if is_schema_list_key(k) {
            match ja.get(k) {
                Some(Json::Array(a)) => ja.insert(k, Json::Array(sub_seq(a, p, (fuel - 1) as nat))),
                _ => ja,
            }
        } else {
            ja
        };
        if is_schema_map_key(k) {
            match jb.get(k) {
                Some(Json::Object(m)) => map_pass(jb, k, obj_keys(m), 0, path, fuel),
                _ => jb,
            }
        } else {
            jb
        }
    }
}

/// The property schemas `props[i..]` under the map keyword `k`.
pub open spec fn map_pass(
    j: Json,
    k: Seq<char>,
    props: Seq<Seq<char>>,
    i: int,
    path: Seq<Seq<char>>,
    fuel: nat,
) -> Json
    decreases fuel, 0int, props.len() - i,
{
    if fuel == 0 || i < 0 || i >= props.len() {
        j
    } else {
        map_pass(map_step(j, k, props[i], path, fuel), k, props, i + 1, path, fuel)
    }
}

/// One property schema under the map keyword `k`: a variable matrix keeps
/// only its `$ref`; any other is walked as a property and then as a subschema.
pub open spec fn map_step(j: Json, k: Seq<char>, prop: Seq<char>, path: Seq<Seq<char>>, fuel: nat) -> Json
    decreases fuel, 0int, 0int,
{
    if fuel == 0 {
        j
    } else {
        match j.get(k) {
            Some(Json::Object(m)) => match obj_get(m, prop) {
                Some(c) => {
                    let p = path.push(k).push(prop);
                    let c2 = if is_variable_matrix_prop(prop) && c is Object {
                        ref_only(c)
                    } else {
                        fixed_sub(walk(c, p, WALK_FUEL as nat), p, (fuel - 1) as nat)
                    };
                    j.insert(k, Json::Object(obj_insert(m, prop, c2)))
                },
                None => j,
            },
            _ => j,
        }
    }
}

fn is_single_schema_key_exec(k: &str) -> (r: bool)
    ensures
        r == is_single_schema_key(k@),
{
    str_eq(k, "select") || str_eq(k, "if") || str_eq(k, "then") || str_eq(k, "else") || str_eq(
        k,
        "not",
    ) || str_eq(k, "additionalProperties")
}

fn is_schema_list_key_exec(k: &str) -> (r: bool)
    ensures
        r == is_schema_list_key(k@),
{
    str_eq(k, "allOf") || str_eq(k, "anyOf") || str_eq(k, "oneOf")
}

fn is_schema_map_key_exec(k: &str) -> (r: bool)
    ensures
        r == is_schema_map_key(k@),
{
    str_eq(k, "dependentRequired") || str_eq(k, "dependentSchemas") || str_eq(k, "dependencies")
        || str_eq(k, "properties") || str_eq(k, "patternProperties") || str_eq(k, "$defs")
        || str_eq(k, "definitions")
}

fn ref_only_value(c: &Value) -> (r: Value)
    ensures
        r@ == ref_only(c@),
{
    match c.get("$ref") {
        Some(v) => single_entry_value("$ref", copy_value(v)),
        None => Value::empty_object(),
    }
}

/// [`fixup_sub_schema`] on each schema of a list.
fn sub_list(a: &mut Vec<Value>, path: &Vec<String>, fuel: u64)
    ensures
        view_seq(final(a)@) == sub_seq(view_seq(old(a)@), strings_view(path@), fuel as nat),
    decreases fuel, 4int,
{
    let ghost s = view_seq(a@);
    proof {
        lemma_view_seq(a@);
    }
    let n = a.len();
    let mut k: usize = 0;
    assert(s.take(0) =~= Seq::<Json>::empty());
    while k < n
        invariant
            n == a@.len(),
            n == s.len(),
            k <= n,
            view_seq(a@).len() == n,
            view_seq(a@).take(k as int) == sub_seq(s.take(k as int), strings_view(path@), fuel as nat),
            view_seq(a@).skip(k as int) == s.skip(k as int),
        decreases n - k,
    {
        proof {
            lemma_view_seq(a@);
        }
        let ghost before = view_seq(a@);
        proof {
            lemma_skip_next(before, s, k as int);
        }
        let mut item = a.remove(k);
        fixup_sub_schema(&mut item, path, fuel);
        let ghost itv = item@;
        a.insert(k, item);
        proof {
            lemma_view_seq(a@);
            assert(view_seq(a@) =~= before.update(k as int, itv));
            assert(s.take(k + 1).drop_last() =~= s.take(k as int));
            assert(view_seq(a@).take(k + 1) =~= before.take(k as int).push(itv));
            assert(view_seq(a@).skip(k + 1) =~= before.skip(k + 1));
        }
        k += 1;
    }
    assert(view_seq(a@).take(n as int) =~= view_seq(a@));
    assert(s.take(n as int) =~= s);
}

fn map_step_exec(schema: &mut Value, k: &str, prop: &str, path: &Vec<String>, fuel: u64)
    requires
        fuel > 0,
    ensures
        final(schema)@ == map_step(old(schema)@, k@, prop@, strings_view(path@), fuel as nat),
    decreases fuel, 0int,
{
    let ghost j0 = schema@;
    match schema.take(k) {
        Some((i, Value::Object(mut m))) => {
            let ghost m0 = view_entries(m@);
            let taken = field_take(&mut m, prop);
            proof {
                lemma_view_entries(m@);
            }
            match taken {
                Some((pi, c)) => {
                    let p1 = path_push(path, k);
                    let p2 = path_push(&p1, prop);
                    let is_matrix = (str_eq(prop, "fsl,pins") || str_eq(prop, "qcom,board-id"))
                        && c.is_object();
                    let c2 = if is_matrix {
                        ref_only_value(&c)
                    } else {
                        let mut w = walk_properties_value(c, &p2, WALK_FUEL);
                        fixup_sub_schema(&mut w, &p2, fuel - 1);
                        w
                    };
                    let ghost c2v = c2@;
                    field_replace_at(&mut m, pi, c2);
                    assert(obj_insert(m0, prop@, c2v) == view_entries(m@));
                    let ghost mv = Json::Object(view_entries(m@));
                    schema.put_at(i, Value::Object(m));
                    assert(j0.insert(k@, mv) == schema@);
                },
                None => {
                    let ghost mv = Json::Object(view_entries(m@));
                    schema.put_at(i, Value::Object(m));
                    assert(j0.insert(k@, mv) == schema@);
                    proof {
                        lemma_insert_same(j0, k@, mv);
                    }
                },
            }
        },
        Some((i, other)) => {
            let ghost ov = other@;
            schema.put_at(i, other);
            proof {
                assert(j0.insert(k@, ov) == schema@);
                lemma_insert_same(j0, k@, ov);
            }
        },
        None => {},
    }
}

fn map_pass_exec(schema: &mut Value, k: &str, path: &Vec<String>, fuel: u64)
    requires
        fuel > 0,
    ensures
        final(schema)@ == match old(schema)@.get(k@) {
            Some(Json::Object(m)) => map_pass(old(schema)@, k@, obj_keys(m), 0, strings_view(path@), fuel as nat),
            _ => old(schema)@,
        },
    decreases fuel, 1int,
{
    let props = match schema.get(k) {
        Some(Value::Object(m)) => entry_keys(m),
        _ => {
            return;
        },
    };
    let ghost j0 = schema@;
    let ghost pv = strings_view(props@);
    let mut i: usize = 0;
    while i < props.len()
        invariant
            i <= props@.len(),
            pv == strings_view(props@),
            pv.len() == props@.len(),
            fuel > 0,
            map_pass(j0, k@, pv, 0, strings_view(path@), fuel as nat) == map_pass(
                schema@,
                k@,
                pv,
                i as int,
                strings_view(path@),
                fuel as nat,
            ),
        decreases props.len() - i,
    {
        assert(pv[i as int] == props@[i as int]@);
        map_step_exec(schema, k, props[i].as_str(), path, fuel);
        i += 1;
    }
}

fn sub_key_exec(schema: &mut Value, k: &str, path: &Vec<String>, fuel: u64)
    requires
        fuel > 0,
    ensures
        final(schema)@ == sub_key(old(schema)@, k@, strings_view(path@), fuel as nat),
    decreases fuel, 2int,
{
    let ghost j0 = schema@;
    let p = path_push(path, k);
    if is_single_schema_key_exec(k) {
        match schema.take(k) {
            Some((i, c)) => {
                let mut c = c;
                fixup_sub_schema(&mut c, &p, fuel - 1);
                let ghost cv = c@;
                schema.put_at(i, c);
                assert(j0.insert(k@, cv) == schema@);
            },
            None => {},
        }
    }
    let ghost ja = schema@;
    if is_schema_list_key_exec(k) {
        match schema.take(k) {
            Some((i, Value::Array(mut a))) => {
                sub_list(&mut a, &p, fuel - 1);
                let ghost av = Json::Array(view_seq(a@));
                schema.put_at(i, Value::Array(a));
                assert(ja.insert(k@, av) == schema@);
            },
            Some((i, other)) => {
                let ghost ov = other@;
                schema.put_at(i, other);
                proof {
                    assert(ja.insert(k@, ov) == schema@);
                    lemma_insert_same(ja, k@, ov);
                }
            },
            None => {},
        }
    }
    if is_schema_map_key_exec(k) {
        map_pass_exec(schema, k, path, fuel);
    }
}

/// Apply the node fixups to a schema and, below it, to every subschema.
fn fixup_sub_schema(schema: &mut Value, path: &Vec<String>, fuel: u64)
    ensures
        final(schema)@ == fixed_sub(old(schema)@, strings_view(path@), fuel as nat),
    decreases fuel, 3int,
{
    if fuel == 0 || !schema.is_object() {
        return;
    }
    schema.remove("description");
    fixup_schema_to_201909(schema);
    fixup_interrupts(schema, path);
    fixup_node_props(schema);
    if member_is_true(schema, "additionalProperties") {
        schema.remove("additionalProperties");
    }
    let keys = match schema {
        Value::Object(o) => entry_keys(o),
        _ => Vec::new(),
    };
    let ghost j3 = schema@;
    let ghost kv = strings_view(keys@);
    proof {
        if !(j3 is Object) {
            assert(kv =~= obj_keys(j3.entries()));
        }
    }
    assert(kv == obj_keys(j3.entries()));
    let mut i: usize = 0;
    while i < keys.len()
        invariant
            i <= keys@.len(),
            kv == strings_view(keys@),
            kv.len() == keys@.len(),
            fuel > 0,
            sub_keys(j3, kv, 0, strings_view(path@), fuel as nat) == sub_keys(
                schema@,
                kv,
                i as int,
                strings_view(path@),
                fuel as nat,
            ),
        decreases keys.len() - i,
    {
        assert(kv[i as int] == keys@[i as int]@);
        sub_key_exec(schema, keys[i].as_str(), path, fuel);
        i += 1;
    }
}

// ---- entry point ------------------------------------------------------------------

/// `{"properties": {"$nodename": n}, "required": ["$nodename"]}`
pub open spec fn nodename_select(n: Json) -> Json {
    Json::Object(
        seq![
            ("properties"@, single_entry("$nodename"@, n)),
            ("required"@, Json::Array(seq![Json::Str("$nodename"@)])),
        ],
    )
}

/// A schema without `select` and without a `compatible` property, whose
/// `$nodename` is constrained, selects nodes by that `$nodename`.
pub open spec fn with_select(j: Json) -> Json {
    if !(j is Object) || j.has("select"@) {
        j
    } else {
        match j.get("properties"@) {
            Some(Json::Object(p)) => if obj_has(p, "compatible"@) {
                j
            } else {
                match obj_get(p, "$nodename"@) {
                    Some(n) => if n == Json::Bool(true) {
                        j
                    } else {
                        j.insert("select"@, nodename_select(n))
                    },
                    None => j,
                }
            },
            _ => j,
        }
    }
}

/// All fixups of a binding document.
pub open spec fn fixed_schema(j: Json) -> Json {
    let j1 = j.remove("examples"@).remove("maintainers"@).remove("historical"@);
    fixed_sub(with_select(j1), Seq::empty(), WALK_FUEL as nat)
}

fn add_select_schema(schema: &mut Value)
    ensures
        final(schema)@ == with_select(old(schema)@),
{
    if !schema.is_object() || schema.has("select") {
        return;
    }
    let sel = match schema.get("properties") {
        Some(Value::Object(p)) => {
            if field_contains(p, "compatible") {
                return;
            }
            match field_get(p, "$nodename") {
                Some(n) => {
                    if n.is_true() {
                        return;
                    }
                    let n = copy_value(n);
                    let props = single_entry_value("$nodename", n);
                    let ghost pv = props@;
                    let item = Value::Str("$nodename".to_owned());
                    let ghost iv = item@;
                    let mut list: Vec<Value> = Vec::new();
                    list.push(item);
                    proof {
                        lemma_view_seq(list@);
                        assert(view_seq(list@) =~= seq![iv]);
                    }
                    let req = array_value(list);
                    let ghost rv = req@;
                    let mut o: Vec<(String, Value)> = Vec::new();
                    o.push(("properties".to_owned(), props));
                    o.push(("required".to_owned(), req));
                    proof {
                        lemma_view_entries(o@);
                        assert(view_entries(o@) =~= seq![("properties"@, pv), ("required"@, rv)]);
                    }
                    o
                },
                None => {
                    return;
                },
            }
        },
        _ => {
            return;
        },
    };
    schema.insert("select", Value::Object(sel));
}

/// Apply all schema fixups to a binding document, in place: drop `examples`,
/// `maintainers` and `historical`, add a `select` by node name where one is
/// implied, and fix up the document and every subschema below it.
pub fn fixup_schema(schema: &mut Value)
    ensures
        final(schema)@ == fixed_schema(old(schema)@),
{
    schema.remove("examples");
    schema.remove("maintainers");
    schema.remove("historical");
    add_select_schema(schema);
    let path: Vec<String> = Vec::new();
    assert(strings_view(path@) =~= Seq::<Seq<char>>::empty());
    fixup_sub_schema(schema, &path, WALK_FUEL);
}

} // verus!
