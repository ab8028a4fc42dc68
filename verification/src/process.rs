//! Assembling a processed schema set: inserting fixed-up schemas by `$id`,
//! the generated cache entries, and the dispatch tables that say which
//! schemas apply to a node.
//!
//! Loading binding files and checking them against the meta-schemas reads
//! files and is done by the caller, which hands the fixed-up documents here.
use vstd::prelude::*;
use crate::json::{
    field_contains, field_insert, keys_sorted, lemma_view_entries, obj_has, obj_insert, view_entries,
    Entries, Json, Value,
};
use crate::strings::seq_lt;
use crate::lib_helpers::{extract_node_compatibles_pub, node_compatibles};
use crate::strings::{concat, seq_starts_with, starts_with, str_eq, strings_view, trim_end_char, trim_end_matches};
use crate::subschema::{fixed_schema, fixup_schema};
use crate::types::{make_compatible_schema, make_property_type_cache, with_compatible_schema, with_type_cache};

verus! {

/// A fully processed schema set, keyed by `$id` (trailing `#` stripped), with
/// the generated cache entries and `version`, and its dispatch tables.
pub struct ProcessedSchemas {
    /// `$id` → processed schema, in key order.
    pub schemas: Vec<(String, Value)>,
    /// compatible string → schema `$id` (a string), in key order.
    pub compat_map: Vec<(String, Value)>,
    /// `$id`s of the schemas with a `select`, applied to every node.
    pub always_schemas: Vec<String>,
}

// ---- one processed schema -------------------------------------------------------------

/// A binding document after the fixups, marked as an object schema and
/// tagged with the file it came from.
pub open spec fn processed(j: Json, filename: Seq<char>) -> Json {
    fixed_schema(j).insert("type"@, Json::Str("object"@)).insert("$filename"@, Json::Str(filename))
}

/// Fix up a loaded binding document and tag it with its file name.
pub fn finish_processed(schema: Value, filename: &str) -> (r: Value)
    ensures
        r@ == processed(schema@, filename@),
{
    let mut schema = schema;
    fixup_schema(&mut schema);
    schema.insert("type", Value::Str("object".to_owned()));
    schema.insert("$filename", Value::Str(filename.to_owned()));
    schema
}

/// The `$id` of a schema, trailing `#` removed.
pub open spec fn processed_id(sch: Json) -> Option<Seq<char>> {
    match sch.get_str("$id"@) {
        Some(s) => Some(trim_end_char(s, '#')),
        None => None,
    }
}

/// The warning for a schema whose `$id` is taken.
pub open spec fn duplicate_warning(sch: Json, id: Seq<char>) -> Seq<char> {
    let file = match sch.get_str("$filename"@) {
        Some(f) => f,
        None => Seq::empty(),
    };
    file + ": warning: ignoring duplicate '$id' value '"@ + id + "'"@
}

/// Insert a processed schema under its `$id`, unless it has none or the `$id`
/// is taken, which adds a warning. Tells whether it was inserted.
pub fn add_processed(schemas: &mut Vec<(String, Value)>, sch: Value, warnings: &mut Vec<String>) -> (r: bool)
    ensures
        match processed_id(sch@) {
            None => !r && final(schemas)@ == old(schemas)@ && final(warnings)@ == old(warnings)@,
            Some(id) => if obj_has(view_entries(old(schemas)@), id) {
                &&& !r
                &&& final(schemas)@ == old(schemas)@
                &&& strings_view(final(warnings)@) == strings_view(old(warnings)@).push(
                    duplicate_warning(sch@, id),
                )
            } else {
                &&& r
                &&& view_entries(final(schemas)@) == obj_insert(view_entries(old(schemas)@), id, sch@)
                &&& final(warnings)@ == old(warnings)@
            },
        },
{
    let id = match sch.get_str("$id") {
        Some(s) => trim_end_matches(s, '#'),
        None => {
            return false;
        },
    };
    if field_contains(schemas, id.as_str()) {
        let file = match sch.get_str("$filename") {
            Some(f) => f.to_owned(),
            None => String::new(),
        };
        let w = concat(file.as_str(), ": warning: ignoring duplicate '$id' value '");
        let w = concat(w.as_str(), id.as_str());
        let w = concat(w.as_str(), "'");
        let ghost before = strings_view(warnings@);
        warnings.push(w);
        assert(strings_view(warnings@) =~= before.push(duplicate_warning(sch@, id@)));
        return false;
    }
    field_insert(schemas, id, sch);
    true
}

/// What adding one processed schema does: the entries after, the warnings
/// it gives, and whether it was inserted.
pub open spec fn add_step(m: Entries, sch: Json) -> (Entries, Seq<Seq<char>>, bool) {
    match processed_id(sch) {
        None => (m, Seq::empty(), false),
        Some(id) => if obj_has(m, id) {
            (m, seq![duplicate_warning(sch, id)], false)
        } else {
            (obj_insert(m, id, sch), Seq::empty(), true)
        },
    }
}

/// The result of processing one file: the schema, if it could be used, and
/// the warnings given while loading it.
pub open spec fn file_result_view(x: (Option<Value>, Vec<String>)) -> (Option<Json>, Seq<Seq<char>>) {
    (match x.0 {
        Some(v) => Some(v@),
        None => None,
    }, strings_view(x.1@))
}

/// The results of processing files, inserted in file order: each file's own
/// warnings, then those its schema's insertion gives. The entries after, all
/// the warnings in order, and how many schemas were inserted.
pub open spec fn inserted_all(m: Entries, items: Seq<(Option<Json>, Seq<Seq<char>>)>) -> (Entries, Seq<Seq<char>>, nat)
    decreases items.len(),
{
    if items.len() == 0 {
        (m, Seq::empty(), 0)
    } else {
        let prev = inserted_all(m, items.drop_last());
        let (sch, warns) = items.last();
        match sch {
            None => (prev.0, prev.1 + warns, prev.2),
            Some(j) => {
                let step = add_step(prev.0, j);
                (step.0, prev.1 + warns + step.1, if step.2 { prev.2 + 1 } else { prev.2 })
            },
        }
    }
}

/// Insert the results of processing files, in file order, appending to
/// `lines` the warnings to report; returns how many schemas were inserted.
pub fn insert_processed(
    schemas: &mut Vec<(String, Value)>,
    processed: Vec<(Option<Value>, Vec<String>)>,
    lines: &mut Vec<String>,
) -> (count: usize)
    ensures
        ({
            let res = inserted_all(view_entries(old(schemas)@), processed@.map_values(|x| file_result_view(x)));
            &&& view_entries(final(schemas)@) == res.0
            &&& strings_view(final(lines)@) == strings_view(old(lines)@) + res.1
            &&& count == res.2
        }),
{
    let ghost items = processed@.map_values(|x: (Option<Value>, Vec<String>)| file_result_view(x));
    let ghost m0 = view_entries(schemas@);
    let ghost l0 = strings_view(lines@);
    let n = processed.len();
    let mut rest = processed;
    let mut count: usize = 0;
    let mut i: usize = 0;
    assert(items.take(0) =~= Seq::<(Option<Json>, Seq<Seq<char>>)>::empty());
    while i < n
        invariant
            n == items.len(),
            i <= n,
            rest@.len() == n - i,
            forall|j: int| 0 <= j < rest@.len() ==> #[trigger] file_result_view(rest@[j]) == items[i + j],
            count <= i,
            ({
                let res = inserted_all(m0, items.take(i as int));
                &&& view_entries(schemas@) == res.0
                &&& strings_view(lines@) == l0 + res.1
                &&& count == res.2
            }),
        decreases n - i,
    {
        let ghost r0 = rest@;
        assert(file_result_view(r0[0]) == items[i + 0]);
        let (sch, warns) = rest.remove(0);
        assert(rest@ =~= r0.subrange(1, r0.len() as int));
        let ghost prev = inserted_all(m0, items.take(i as int));
        assert(items.take(i + 1).drop_last() =~= items.take(i as int));
        assert(items.take(i + 1).last() == items[i as int]);
        let mut k: usize = 0;
        while k < warns.len()
            invariant
                k <= warns@.len(),
                strings_view(lines@) == l0 + prev.1 + strings_view(warns@).take(k as int),
            decreases warns.len() - k,
        {
            let ghost l1 = lines@;
            let t = warns[k].clone();
            lines.push(t);
            assert(strings_view(lines@) =~= strings_view(l1).push(warns@[k as int]@));
            assert(strings_view(warns@).take(k + 1) =~= strings_view(warns@).take(k as int).push(warns@[k as int]@));
            k += 1;
            assert(strings_view(lines@) =~= l0 + prev.1 + strings_view(warns@).take(k as int));
        }
        assert(strings_view(warns@).take(warns@.len() as int) =~= strings_view(warns@));
        match sch {
            None => {},
            Some(sch) => {
                let ghost before = strings_view(lines@);
                let ghost jv = sch@;
                let mut w: Vec<String> = Vec::new();
                let added = add_processed(schemas, sch, &mut w);
                if added {
                    count += 1;
                }
                let mut k: usize = 0;
                while k < w.len()
                    invariant
                        k <= w@.len(),
                        strings_view(lines@) == before + strings_view(w@).take(k as int),
                    decreases w.len() - k,
                {
                    let ghost l1 = lines@;
                    let t = w[k].clone();
                    lines.push(t);
                    assert(strings_view(lines@) =~= strings_view(l1).push(w@[k as int]@));
                    assert(strings_view(w@).take(k + 1) =~= strings_view(w@).take(k as int).push(w@[k as int]@));
                    k += 1;
                    assert(strings_view(lines@) =~= before + strings_view(w@).take(k as int));
                }
                assert(strings_view(w@).take(w@.len() as int) =~= strings_view(w@));
                assert(strings_view(w@) =~= add_step(prev.0, jv).1);
            },
        }
        assert forall|j: int| 0 <= j < rest@.len() implies #[trigger] file_result_view(rest@[j]) == items[(i + 1) + j] by {
            assert(rest@[j] == r0[j + 1]);
            assert(file_result_view(r0[j + 1]) == items[i + (j + 1)]);
        }
        i += 1;
    }
    assert(items.take(n as int) =~= items);
    count
}

// ---- dispatch ---------------------------------------------------------------------

/// Generated entries other than the compatible schema hold no node schema.
pub open spec fn skipped_key(key: Seq<char>) -> bool {
    seq_starts_with(key, "generated-"@) && key != "generated-compatibles"@
}

/// A schema's `$id` (or else its key), trailing `#` removed.
pub open spec fn dispatch_id(key: Seq<char>, sch: Json) -> Seq<char> {
    trim_end_char(
        match sch.get_str("$id"@) {
            Some(s) => s,
            None => key,
        },
        '#',
    )
}

/// Generic compatibles that other compatibles of the same schema override.
pub open spec fn is_generic_compatible(c: Seq<char>) -> bool {
    c == "syscon"@ || c == "simple-mfd"@ || c == "simple-bus"@
}

pub open spec fn without_generic(cs: Seq<Seq<char>>) -> Seq<Seq<char>>
    decreases cs.len(),
{
    if cs.len() == 0 {
        cs
    } else {
        let r = without_generic(cs.drop_last());
        if is_generic_compatible(cs.last()) {
            r
        } else {
            r.push(cs.last())
        }
    }
}

/// The compatibles a schema dispatches on: the generic ones only when alone.
pub open spec fn kept_compatibles(cs: Seq<Seq<char>>) -> Seq<Seq<char>> {
    if cs.len() > 1 {
        without_generic(cs)
    } else {
        cs
    }
}

/// Map each of `cs` to `id`.
pub open spec fn map_all_to(m: Entries, cs: Seq<Seq<char>>, id: Seq<char>) -> Entries
    decreases cs.len(),
{
    if cs.len() == 0 {
        m
    } else {
        obj_insert(map_all_to(m, cs.drop_last(), id), cs.last(), Json::Str(id))
    }
}

/// One schema's part in the dispatch tables: a schema with a `select` other
/// than `false` applies to every node; one with a `compatible` property
/// applies to the nodes it names.
pub open spec fn dispatch_step(st: (Entries, Seq<Seq<char>>), e: (Seq<char>, Json)) -> (Entries, Seq<Seq<char>>) {
    let key = e.0;
    let sch = e.1;
    if skipped_key(key) {
        st
    } else {
        let id = dispatch_id(key, sch);
        match sch.get("select"@) {
            Some(sel) => if sel != Json::Bool(false) {
                (st.0, st.1.push(id))
            } else {
                st
            },
            None => match sch.get("properties"@) {
                Some(p) => match p.get("compatible"@) {
                    Some(cs) => (map_all_to(st.0, kept_compatibles(node_compatibles(cs)), id), st.1),
                    None => st,
                },
                None => st,
            },
        }
    }
}

/// The compatible map and the always-applied schemas of a schema set.
pub open spec fn dispatch(schemas: Entries) -> (Entries, Seq<Seq<char>>)
    decreases schemas.len(),
{
    if schemas.len() == 0 {
        (Seq::empty(), Seq::empty())
    } else {
        dispatch_step(dispatch(schemas.drop_last()), schemas.last())
    }
}

/// Dropping the generic compatibles keeps every other one and no generic one.
proof fn lemma_without_generic(cs: Seq<Seq<char>>)
    ensures
        forall|k: int| 0 <= k < without_generic(cs).len() ==> {
            &&& #[trigger] without_generic(cs)[k] != "syscon"@
            &&& without_generic(cs)[k] != "simple-mfd"@
            &&& without_generic(cs)[k] != "simple-bus"@
            &&& cs.contains(without_generic(cs)[k])
        },
        forall|c: Seq<char>| #[trigger] cs.contains(c) && c != "syscon"@ && c != "simple-mfd"@
            && c != "simple-bus"@ ==> without_generic(cs).contains(c),
    decreases cs.len(),
{
    if cs.len() > 0 {
        let d = cs.drop_last();
        lemma_without_generic(d);
        let r = without_generic(d);
        assert forall|k: int| 0 <= k < without_generic(cs).len() implies {
            &&& #[trigger] without_generic(cs)[k] != "syscon"@
            &&& without_generic(cs)[k] != "simple-mfd"@
            &&& without_generic(cs)[k] != "simple-bus"@
            &&& cs.contains(without_generic(cs)[k])
        } by {
            if k < r.len() {
                assert(without_generic(cs)[k] == r[k]);
                let i = choose|i: int| 0 <= i < d.len() && d[i] == r[k];
                assert(cs[i] == d[i]);
            } else {
                assert(without_generic(cs)[k] == cs.last());
                assert(cs[cs.len() - 1] == cs.last());
            }
        }
        assert forall|c: Seq<char>| #[trigger] cs.contains(c) && c != "syscon"@ && c != "simple-mfd"@
            && c != "simple-bus"@ implies without_generic(cs).contains(c) by {
            let i = choose|i: int| 0 <= i < cs.len() && cs[i] == c;
            if i < d.len() {
                assert(d[i] == c);
                assert(d.contains(c));
                let k = choose|k: int| 0 <= k < r.len() && r[k] == c;
                if !is_generic_compatible(cs.last()) {
                    assert(without_generic(cs)[k] == c);
                }
            } else {
                assert(without_generic(cs).last() == c);
            }
        }
    }
}

/// A schema whose `compatible` names more than one string dispatches on none
/// of the generic `syscon`, `simple-mfd` and `simple-bus`, and on every other
/// string it names; a single compatible is dispatched on whatever it is.
pub proof fn lemma_kept_compatibles(cs: Seq<Seq<char>>)
    ensures
        cs.len() > 1 ==> forall|k: int| 0 <= k < kept_compatibles(cs).len() ==> {
            &&& #[trigger] kept_compatibles(cs)[k] != "syscon"@
            &&& kept_compatibles(cs)[k] != "simple-mfd"@
            &&& kept_compatibles(cs)[k] != "simple-bus"@
            &&& cs.contains(kept_compatibles(cs)[k])
        },
        forall|c: Seq<char>| #[trigger] cs.contains(c) && c != "syscon"@ && c != "simple-mfd"@
            && c != "simple-bus"@ ==> kept_compatibles(cs).contains(c),
        cs.len() <= 1 ==> kept_compatibles(cs) == cs,
{
    lemma_without_generic(cs);
}

/// Mapping a list of compatibles leaves every other key of the map as it was.
proof fn lemma_map_all_to_other(m: Entries, cs: Seq<Seq<char>>, id: Seq<char>, q: Seq<char>)
    requires
        !cs.contains(q),
    ensures
        crate::json::obj_get(map_all_to(m, cs, id), q) == crate::json::obj_get(m, q),
    decreases cs.len(),
{
    if cs.len() > 0 {
        assert(!cs.drop_last().contains(q)) by {
            if cs.drop_last().contains(q) {
                let i = choose|i: int| 0 <= i < cs.drop_last().len() && cs.drop_last()[i] == q;
                assert(cs[i] == q);
            }
        }
        lemma_map_all_to_other(m, cs.drop_last(), id, q);
        assert(cs[cs.len() - 1] != q);
        crate::json::lemma_insert_get_other(map_all_to(m, cs.drop_last(), id), cs.last(), Json::Str(id), q);
    }
}

/// A schema whose `compatible` names more than one string leaves the entries
/// of `syscon`, `simple-mfd` and `simple-bus` in the compatible map as they
/// were: nodes with those generic compatibles are not sent to it.
pub proof fn lemma_dispatch_keeps_generic(st: (Entries, Seq<Seq<char>>), e: (Seq<char>, Json), g: Seq<char>)
    requires
        g == "syscon"@ || g == "simple-mfd"@ || g == "simple-bus"@,
        match e.1.get("properties"@) {
            Some(p) => match p.get("compatible"@) {
                Some(cs) => node_compatibles(cs).len() > 1,
                None => true,
            },
            None => true,
        },
    ensures
        crate::json::obj_get(dispatch_step(st, e).0, g) == crate::json::obj_get(st.0, g),
{
    match e.1.get("properties"@) {
        Some(p) => match p.get("compatible"@) {
            Some(cs) => {
                let kept = kept_compatibles(node_compatibles(cs));
                lemma_kept_compatibles(node_compatibles(cs));
                assert(!kept.contains(g)) by {
                    if kept.contains(g) {
                        let k = choose|k: int| 0 <= k < kept.len() && kept[k] == g;
                        assert(kept[k] != g);
                    }
                }
                lemma_map_all_to_other(st.0, kept, dispatch_id(e.0, e.1), g);
            },
            None => {},
        },
        None => {},
    }
}

fn is_generic_compatible_exec(c: &str) -> (r: bool)
    ensures
        r == is_generic_compatible(c@),
{
    str_eq(c, "syscon") || str_eq(c, "simple-mfd") || str_eq(c, "simple-bus")
}

fn kept_compatibles_exec(cs: Vec<String>) -> (r: Vec<String>)
    ensures
        strings_view(r@) == kept_compatibles(strings_view(cs@)),
{
    if cs.len() <= 1 {
        return cs;
    }
    let ghost cv = strings_view(cs@);
    let mut out: Vec<String> = Vec::new();
    let mut i: usize = 0;
    assert(strings_view(out@) =~= without_generic(cv.take(0)));
    while i < cs.len()
        invariant
            i <= cs@.len(),
            cv == strings_view(cs@),
            cv.len() == cs@.len(),
            strings_view(out@) == without_generic(cv.take(i as int)),
        decreases cs.len() - i,
    {
        assert(cv.take(i + 1).drop_last() =~= cv.take(i as int));
        assert(cv.take(i + 1).last() == cs@[i as int]@);
        if !is_generic_compatible_exec(cs[i].as_str()) {
            let ghost before = strings_view(out@);
            let c = cs[i].clone();
            out.push(c);
            assert(strings_view(out@) =~= before.push(cv[i as int]));
        }
        i += 1;
    }
    assert(cv.take(i as int) =~= cv);
    out
}

fn dispatch_step_exec(compat_map: &mut Vec<(String, Value)>, always: &mut Vec<String>, key: &str, sch: &Value)
    ensures
        (view_entries(final(compat_map)@), strings_view(final(always)@)) == dispatch_step(
            (view_entries(old(compat_map)@), strings_view(old(always)@)),
            (key@, sch@),
        ),
{
    if starts_with(key, "generated-") && !str_eq(key, "generated-compatibles") {
        return;
    }
    let id = match sch.get_str("$id") {
        Some(s) => trim_end_matches(s, '#'),
        None => trim_end_matches(key, '#'),
    };
    match sch.get("select") {
        Some(sel) => {
            let is_false = match sel {
                Value::Bool(b) => !*b,
                _ => false,
            };
            if !is_false {
                let ghost before = strings_view(always@);
                always.push(id);
                assert(strings_view(always@) =~= before.push(dispatch_id(key@, sch@)));
            }
        },
        None => {
            let cs = match sch.get("properties") {
                Some(p) => match p.get("compatible") {
                    Some(c) => extract_node_compatibles_pub(c),
                    None => {
                        return;
                    },
                },
                None => {
                    return;
                },
            };
            let kept = kept_compatibles_exec(cs);
            let ghost kv = strings_view(kept@);
            let ghost m0 = view_entries(compat_map@);
            let mut i: usize = 0;
            assert(kv.take(0) =~= Seq::<Seq<char>>::empty());
            while i < kept.len()
                invariant
                    i <= kept@.len(),
                    kv == strings_view(kept@),
                    kv.len() == kept@.len(),
                    view_entries(compat_map@) == map_all_to(m0, kv.take(i as int), id@),
                decreases kept.len() - i,
            {
                assert(kv.take(i + 1).drop_last() =~= kv.take(i as int));
                assert(kv.take(i + 1).last() == kept@[i as int]@);
                field_insert(compat_map, kept[i].clone(), Value::Str(id.clone()));
                i += 1;
            }
            assert(kv.take(i as int) =~= kv);
        },
    }
}

fn assemble_dispatch(schemas: &Vec<(String, Value)>) -> (r: (Vec<(String, Value)>, Vec<String>))
    ensures
        (view_entries(r.0@), strings_view(r.1@)) == dispatch(view_entries(schemas@)),
{
    let ghost sv = view_entries(schemas@);
    proof {
        lemma_view_entries(schemas@);
    }
    let mut compat_map: Vec<(String, Value)> = Vec::new();
    let mut always: Vec<String> = Vec::new();
    proof {
        lemma_view_entries(compat_map@);
    }
    assert(view_entries(compat_map@) =~= Seq::<(Seq<char>, Json)>::empty());
    assert(strings_view(always@) =~= Seq::<Seq<char>>::empty());
    assert(sv.take(0) =~= Seq::<(Seq<char>, Json)>::empty());
    let mut k: usize = 0;
    while k < schemas.len()
        invariant
            k <= schemas@.len(),
            sv == view_entries(schemas@),
            sv.len() == schemas@.len(),
            forall|j: int| 0 <= j < schemas@.len() ==> #[trigger] sv[j] == (schemas@[j].0@, schemas@[j].1@),
            (view_entries(compat_map@), strings_view(always@)) == dispatch(sv.take(k as int)),
        decreases schemas.len() - k,
    {
        assert(sv.take(k + 1).drop_last() =~= sv.take(k as int));
        assert(sv.take(k + 1).last() == sv[k as int]);
        dispatch_step_exec(&mut compat_map, &mut always, schemas[k].0.as_str(), &schemas[k].1);
        k += 1;
    }
    assert(sv.take(k as int) =~= sv);
    (compat_map, always)
}

// ---- processed sets ------------------------------------------------------------------

/// The processed set built from fixed-up schemas: the generated entries
/// added, the dispatch tables taken, then `version` added.
pub open spec fn built(schemas: Entries, version: Seq<char>) -> (Entries, Entries, Seq<Seq<char>>) {
    let s = with_compatible_schema(with_type_cache(schemas));
    let d = dispatch(s);
    (obj_insert(s, "version"@, Json::Str(version)), d.0, d.1)
}

/// Why a loaded document is not a usable processed schema set.
#[derive(Debug, PartialEq, Eq, Structural)]
pub enum ProcessError {
    NotObject,
    SingleSchema,
    OutOfDate,
}

impl ProcessError {
    pub open spec fn spec_message(self) -> Seq<char> {
        match self {
            ProcessError::NotObject => "processed schema is not a JSON object"@,
            ProcessError::SingleSchema => "single schema is not a processed schema set"@,
            ProcessError::OutOfDate => "Processed schema out of date, delete and retry"@,
        }
    }

    /// The error's message.
    pub fn message(&self) -> (r: String)
        ensures
            r@ == self.spec_message(),
    {
        match self {
            ProcessError::NotObject => "processed schema is not a JSON object".to_owned(),
            ProcessError::SingleSchema => "single schema is not a processed schema set".to_owned(),
            ProcessError::OutOfDate => "Processed schema out of date, delete and retry".to_owned(),
        }
    }
}

/// The entries of a processed set other than `version`.
pub open spec fn without_version(m: Entries) -> Entries
    decreases m.len(),
{
    if m.len() == 0 {
        Seq::empty()
    } else {
        let r = without_version(m.drop_last());
        if m.last().0 == "version"@ {
            r
        } else {
            obj_insert(r, m.last().0, m.last().1)
        }
    }
}

/// A processed set read back from its JSON document, or why it cannot be.
pub open spec fn loaded(value: Json, version: Seq<char>) -> Result<(Entries, Entries, Seq<Seq<char>>), ProcessError> {
    if !(value is Object) {
        Err(ProcessError::NotObject)
    } else if value.has("$id"@) {
        Err(ProcessError::SingleSchema)
    } else if value.get_str("version"@) != Some(version) {
        Err(ProcessError::OutOfDate)
    } else {
        let s = without_version(value->Object_0);
        let d = dispatch(s);
        Ok((obj_insert(s, "version"@, Json::Str(version)), d.0, d.1))
    }
}

impl ProcessedSchemas {
    /// The set as its three tables.
    pub open spec fn tables(&self) -> (Entries, Entries, Seq<Seq<char>>) {
        (view_entries(self.schemas@), view_entries(self.compat_map@), strings_view(self.always_schemas@))
    }

    /// Build the processed set from fixed-up schemas keyed by `$id`: add the
    /// generated type and compatible entries, take the dispatch tables, and
    /// record `version`.
    pub fn build(schemas: Vec<(String, Value)>, version: &str) -> (r: Self)
        ensures
            r.tables() == built(view_entries(schemas@), version@),
    {
        let mut schemas = schemas;
        make_property_type_cache(&mut schemas);
        make_compatible_schema(&mut schemas);
        let (compat_map, always_schemas) = assemble_dispatch(&schemas);
        field_insert(&mut schemas, "version".to_owned(), Value::Str(version.to_owned()));
        ProcessedSchemas { schemas, compat_map, always_schemas }
    }

    /// Reconstruct a processed set from its JSON document (as `dt-mk-schema`
    /// writes it). The generated entries are kept as they are; the dispatch
    /// tables are rebuilt from the entries.
    pub fn from_value(value: &Value, version: &str) -> (r: Result<Self, ProcessError>)
        ensures
            match r {
                Ok(p) => loaded(value@, version@) == Ok::<(Entries, Entries, Seq<Seq<char>>), ProcessError>(p.tables()),
                Err(e) => loaded(value@, version@) == Err::<(Entries, Entries, Seq<Seq<char>>), ProcessError>(e),
            },
    {
        let obj = match value {
            Value::Object(o) => o,
            _ => {
                return Err(ProcessError::NotObject);
            },
        };
        if field_contains(obj, "$id") {
            return Err(ProcessError::SingleSchema);
        }
        let current = match value.get_str("version") {
            Some(v) => str_eq(v, version),
            None => false,
        };
        if !current {
            return Err(ProcessError::OutOfDate);
        }
        let ghost m = view_entries(obj@);
        proof {
            lemma_view_entries(obj@);
        }
        let mut schemas: Vec<(String, Value)> = Vec::new();
        proof {
            lemma_view_entries(schemas@);
        }
        assert(view_entries(schemas@) =~= without_version(m.take(0)));
        let mut i: usize = 0;
        while i < obj.len()
            invariant
                i <= obj@.len(),
                m == view_entries(obj@),
                m.len() == obj@.len(),
                forall|j: int| 0 <= j < obj@.len() ==> #[trigger] m[j] == (obj@[j].0@, obj@[j].1@),
                view_entries(schemas@) == without_version(m.take(i as int)),
            decreases obj.len() - i,
        {
            assert(m.take(i + 1).drop_last() =~= m.take(i as int));
            assert(m.take(i + 1).last() == m[i as int]);
            if !str_eq(obj[i].0.as_str(), "version") {
                field_insert(&mut schemas, obj[i].0.clone(), crate::json::copy_value(&obj[i].1));
            }
            i += 1;
        }
        assert(m.take(i as int) =~= m);
        let (compat_map, always_schemas) = assemble_dispatch(&schemas);
        field_insert(&mut schemas, "version".to_owned(), Value::Str(version.to_owned()));
        Ok(ProcessedSchemas { schemas, compat_map, always_schemas })
    }
}

// ---- laws of processed sets ------------------------------------------------------------

/// The entries other than `version`, in order.
pub open spec fn other_than_version(m: Entries) -> Entries
    decreases m.len(),
{
    if m.len() == 0 {
        m
    } else {
        let r = other_than_version(m.drop_last());
        if m.last().0 == "version"@ {
            r
        } else {
            r.push(m.last())
        }
    }
}

proof fn lemma_sorted_prefix(m: Entries, n: int)
    requires
        keys_sorted(m),
        0 <= n <= m.len(),
    ensures
        keys_sorted(m.take(n)),
{
    assert forall|a: int, b: int| 0 <= a < b < m.take(n).len() implies seq_lt(#[trigger] m.take(n)[a].0, #[trigger] m.take(n)[b].0) by {
        assert(m.take(n)[a] == m[a] && m.take(n)[b] == m[b]);
    }
}

proof fn lemma_other_than_version_keys(m: Entries)
    ensures
        forall|j: int| 0 <= j < other_than_version(m).len() ==> exists|i: int|
            0 <= i < m.len() && #[trigger] other_than_version(m)[j] == m[i],
        forall|j: int| 0 <= j < other_than_version(m).len() ==> #[trigger] other_than_version(m)[j].0 != "version"@,
    decreases m.len(),
{
    if m.len() > 0 {
        lemma_other_than_version_keys(m.drop_last());
        let r = other_than_version(m.drop_last());
        assert forall|j: int| 0 <= j < other_than_version(m).len() implies exists|i: int|
            0 <= i < m.len() && #[trigger] other_than_version(m)[j] == m[i] by {
            if j < r.len() {
                let i = choose|i: int| 0 <= i < m.drop_last().len() && r[j] == m.drop_last()[i];
                assert(m[i] == m.drop_last()[i]);
            } else {
                assert(other_than_version(m)[j] == m[m.len() - 1]);
            }
        }
    }
}

/// Reading back the entries of a map one by one, skipping `version`, gives
/// the map without its `version` entry.
proof fn lemma_without_version(m: Entries)
    requires
        keys_sorted(m),
    ensures
        without_version(m) == other_than_version(m),
    decreases m.len(),
{
    if m.len() > 0 {
        let d = m.drop_last();
        lemma_sorted_prefix(m, m.len() - 1);
        assert(m.take(m.len() - 1) =~= d);
        lemma_without_version(d);
        let r = other_than_version(d);
        if m.last().0 != "version"@ {
            lemma_other_than_version_keys(d);
            let k = m.last().0;
            assert forall|j: int| 0 <= j < r.len() implies seq_lt(#[trigger] r[j].0, k) by {
                let i = choose|i: int| 0 <= i < d.len() && r[j] == d[i];
                assert(d[i] == m[i]);
                assert(seq_lt(m[i].0, m[m.len() - 1].0));
            }
            assert forall|j: int| 0 <= j < r.len() implies #[trigger] r[j].0 != k by {
                assert(seq_lt(r[j].0, k));
                crate::strings::lemma_seq_lt_irreflexive(k);
            }
            crate::json::lemma_find_from(r, k, 0);
            assert(crate::json::find_key(r, k) == -1);
            lemma_insert_pos_end(r, k, 0);
            assert(r.insert(r.len() as int, m.last()) =~= r.push(m.last()));
        }
    }
}

proof fn lemma_insert_pos_end(r: Entries, k: Seq<char>, start: int)
    requires
        0 <= start <= r.len(),
        forall|j: int| 0 <= j < r.len() ==> seq_lt(#[trigger] r[j].0, k),
    ensures
        crate::json::insert_pos(r, k, start) == r.len(),
    decreases r.len() - start,
{
    if start < r.len() {
        assert(seq_lt(r[start].0, k));
        crate::strings::lemma_seq_lt_asymmetric(r[start].0, k);
        lemma_insert_pos_end(r, k, start + 1);
    }
}

proof fn lemma_other_than_version_insert(s: Entries, p: int, v: Json)
    requires
        0 <= p <= s.len(),
        forall|j: int| 0 <= j < s.len() ==> #[trigger] s[j].0 != "version"@,
    ensures
        other_than_version(s.insert(p, ("version"@, v))) == s,
    decreases s.len(),
{
    let t = s.insert(p, ("version"@, v));
    assert(t.len() == s.len() + 1);
    if p == s.len() {
        assert(t.drop_last() =~= s);
        assert(t.last() == ("version"@, v));
        lemma_other_than_version_all(s);
        assert(other_than_version(t) == other_than_version(t.drop_last()));
    } else {
        let d = s.drop_last();
        lemma_other_than_version_insert(d, p, v);
        assert(t.drop_last() =~= d.insert(p, ("version"@, v)));
        assert(t.last() == s.last());
        assert(s.last().0 != "version"@) by {
            assert(s[s.len() - 1].0 != "version"@);
        }
        assert(other_than_version(t) == other_than_version(t.drop_last()).push(t.last()));
        assert(d.push(s.last()) =~= s);
    }
}

proof fn lemma_other_than_version_all(s: Entries)
    requires
        forall|j: int| 0 <= j < s.len() ==> #[trigger] s[j].0 != "version"@,
    ensures
        other_than_version(s) == s,
    decreases s.len(),
{
    if s.len() > 0 {
        lemma_other_than_version_all(s.drop_last());
        assert(s.drop_last().push(s.last()) =~= s);
    }
}

/// A processed set reads back from the document it is written as: loading
/// the schemas map of a built set (with the same version) gives the same
/// schemas and dispatch tables, when the fixed-up schemas were keyed in
/// order, none is keyed `version` and no entry is keyed `$id`.
pub proof fn lemma_processed_round_trip(schemas: Entries, version: Seq<char>)
    requires
        keys_sorted(schemas),
        !obj_has(with_compatible_schema(with_type_cache(schemas)), "version"@),
        !obj_has(built(schemas, version).0, "$id"@),
    ensures
        loaded(Json::Object(built(schemas, version).0), version) == Ok::<(Entries, Entries, Seq<Seq<char>>), ProcessError>(built(schemas, version)),
{
    let t = prop_types_of(schemas);
    let s0 = with_type_cache(schemas);
    let s = with_compatible_schema(s0);
    crate::json::lemma_insert_sorted(schemas, "generated-types"@, crate::types::type_cache_doc("generated-types"@, "Generated property types"@, crate::types::strip_working(t.0)));
    let s1 = obj_insert(schemas, "generated-types"@, crate::types::type_cache_doc("generated-types"@, "Generated property types"@, crate::types::strip_working(t.0)));
    crate::json::lemma_insert_sorted(s1, "generated-pattern-types"@, crate::types::type_cache_doc("generated-pattern-types"@, "Generated pattern property types"@, crate::types::strip_working(t.1)));
    assert(keys_sorted(s0));
    crate::json::lemma_insert_sorted(s0, "generated-compatibles"@, crate::types::compatibles_doc(crate::types::all_compatibles(s0)));
    assert(keys_sorted(s));
    let full = obj_insert(s, "version"@, Json::Str(version));
    crate::json::lemma_insert_sorted(s, "version"@, Json::Str(version));
    crate::json::lemma_insert_get(s, "version"@, Json::Str(version));
    lemma_without_version(full);
    crate::json::lemma_find_from(s, "version"@, 0);
    assert(crate::json::find_key(s, "version"@) == -1);
    assert forall|j: int| 0 <= j < s.len() implies #[trigger] s[j].0 != "version"@ by {}
    crate::json::lemma_insert_pos(s, "version"@, 0);
    lemma_other_than_version_insert(s, crate::json::insert_pos(s, "version"@, 0), Json::Str(version));
    assert(without_version(full) == s);
}

/// The property types of a schema set.
pub open spec fn prop_types_of(schemas: Entries) -> (Entries, Entries) {
    crate::types::prop_types(schemas)
}

} // verus!
