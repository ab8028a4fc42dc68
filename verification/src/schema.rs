//! A single binding schema: its identifiers, its fixed-up form, the checks
//! on its node subschemas, and the lines that report its meta-schema errors.
//!
//! Loading the file, resolving `$ref`s to other files and validating against
//! the meta-schema read files; the caller does those and hands the results
//! here.
use vstd::prelude::*;
use vstd::multiset::Multiset;
use crate::json::{
    copy_value, field_contains, field_get, lemma_view_entries, lemma_view_seq, obj_has, view_entries,
    view_seq, Entries, Json, Value,
};
use crate::lib_helpers::{gather, gather_values, set_add, str_insert_pos, str_pos, str_values};
use crate::strings::{
    seq_lt, seq_starts_with, chars_of, concat, dec_nat, dec_usize, push_str, str_eq, strings_view, strip_prefix,
    trim_end_char, trim_end_matches,
};
use crate::jsontext::{json_text, to_json_text};
use crate::subschema::fixed_schema;
use crate::trusted::{draft201909_check, draft201909_check_result};
use crate::validator::PathSeg;

verus! {

/// A binding schema document and the file it was loaded from.
pub struct DTSchema {
    pub value: Value,
    pub filename: String,
}

/// A string member with its trailing `#` removed.
pub open spec fn trimmed_member(j: Json, k: Seq<char>) -> Option<Seq<char>> {
    match j.get_str(k) {
        Some(s) => Some(trim_end_char(s, '#')),
        None => None,
    }
}

fn trimmed_member_exec(v: &Value, k: &str) -> (r: Option<String>)
    ensures
        crate::diagnostic::opt_string(r) == trimmed_member(v@, k@),
{
    match v.get_str(k) {
        Some(s) => Some(trim_end_matches(s, '#')),
        None => None,
    }
}

impl DTSchema {
    /// The `$id` with any trailing `#` removed.
    pub fn id(&self) -> (r: Option<String>)
        ensures
            crate::diagnostic::opt_string(r) == trimmed_member(self.value@, "$id"@),
    {
        trimmed_member_exec(&self.value, "$id")
    }

    /// The meta-schema URI named by `$schema`, trailing `#` removed.
    pub fn meta_schema_id(&self) -> (r: Option<String>)
        ensures
            crate::diagnostic::opt_string(r) == trimmed_member(self.value@, "$schema"@),
    {
        trimmed_member_exec(&self.value, "$schema")
    }

    /// Check that the document is a structurally valid JSON Schema (Draft
    /// 2019-09); the error is the instance path of the problem found, or
    /// empty when the document has no JSON text. This does not resolve the
    /// binding's own `$ref`s.
    pub fn check_schema_valid(&self) -> (r: Result<(), String>)
        ensures
            match draft201909_check_result(json_text(self.value@)) {
                Some(Ok(())) => r is Ok,
                Some(Err(p)) => r matches Err(e) && e@ == p,
                None => r matches Err(e) && e@ == Seq::<char>::empty(),
            },
    {
        let text = to_json_text(&self.value);
        match draft201909_check(text.as_str()) {
            Some(Ok(())) => Ok(()),
            Some(Err(p)) => Err(p),
            None => Err(String::new()),
        }
    }

    /// The schema after the fixups; the loaded document is left as it is.
    pub fn fixup(&self) -> (r: Value)
        ensures
            r@ == fixed_schema(self.value@),
    {
        let mut processed = copy_value(&self.value);
        crate::subschema::fixup_schema(&mut processed);
        processed
    }

    /// The `$ref` targets of the document, trailing `#` removed: the
    /// references that [`DTSchema::check_schema_refs`] may look up.
    pub fn ref_targets(&self) -> (r: Vec<String>)
        ensures
            strings_view(r@) == str_values(gather(self.value@, "$ref"@)).map_values(
                |s: Seq<char>| trim_end_char(s, '#'),
            ),
    {
        let refs = gather_values(&self.value, "$ref");
        let ghost rv = view_seq(refs@);
        proof {
            lemma_view_seq(refs@);
        }
        let mut out: Vec<String> = Vec::new();
        let mut i: usize = 0;
        assert(strings_view(out@) =~= str_values(rv.take(0)).map_values(|s: Seq<char>| trim_end_char(s, '#')));
        while i < refs.len()
            invariant
                i <= refs@.len(),
                rv == view_seq(refs@),
                rv.len() == refs@.len(),
                forall|j: int| 0 <= j < refs@.len() ==> #[trigger] rv[j] == refs@[j]@,
                strings_view(out@) == str_values(rv.take(i as int)).map_values(
                    |s: Seq<char>| trim_end_char(s, '#'),
                ),
            decreases refs.len() - i,
        {
            assert(rv.take(i + 1).drop_last() =~= rv.take(i as int));
            assert(rv.take(i + 1).last() == refs@[i as int]@);
            match &refs[i] {
                Value::Str(s) => {
                    let ghost before = strings_view(out@);
                    out.push(trim_end_matches(s.as_str(), '#'));
                    assert(strings_view(out@) =~= before.push(trim_end_char(s@, '#')));
                    assert(str_values(rv.take(i + 1)) =~= str_values(rv.take(i as int)).push(s@));
                },
                _ => {
                    assert(str_values(rv.take(i + 1)) =~= str_values(rv.take(i as int)));
                },
            }
            i += 1;
        }
        assert(rv.take(i as int) =~= rv);
        out
    }

    /// The warnings of the check that every node subschema constrains
    /// undefined properties, given for each resolved `$ref` target whether
    /// the referenced schema constrains them (targets that did not resolve are
    /// left out of `resolved`).
    pub fn check_schema_refs(&self, resolved: &Vec<(String, bool)>) -> (r: Vec<String>)
        ensures
            strings_view(r@) == refs_report(self.value@, self.filename@, resolved_view(resolved@)),
    {
        let mut out: Vec<String> = Vec::new();
        assert(strings_view(out@) =~= Seq::<Seq<char>>::empty());
        let is_common = !schema_allows_no_undefined_props(&self.value);
        check_refs_rec(&self.value, self.filename.as_str(), None, is_common, false, resolved, &mut out);
        assert(strings_view(out@) =~= refs_report(self.value@, self.filename@, resolved_view(resolved@)));
        out
    }
}

// ---- node subschemas ----------------------------------------------------------------

/// A subschema that describes a node: `type: object` or an object-property
/// keyword.
pub open spec fn node_schema(j: Json) -> bool {
    j is Object && (j.get_str("type"@) == Some("object"@) || j.has("properties"@) || j.has(
        "patternProperties"@,
    ) || j.has("additionalProperties"@) || j.has("unevaluatedProperties"@))
}

/// A constraint keyword forbids undefined properties: it is `false` or a
/// schema; absent or `true` allows them.
pub open spec fn closes(v: Option<Json>) -> bool {
    match v {
        None => false,
        Some(Json::Bool(b)) => !b,
        Some(_) => true,
    }
}

/// The subschema forbids undefined properties, or is no node schema.
pub open spec fn allows_no_undefined(j: Json) -> bool {
    !node_schema(j) || closes(j.get("additionalProperties"@)) || closes(j.get("unevaluatedProperties"@))
}

/// Whether a subschema describes a node.
pub fn is_node_schema(schema: &Value) -> (r: bool)
    ensures
        r == node_schema(schema@),
{
    if !schema.is_object() {
        return false;
    }
    let is_object = match schema.get_str("type") {
        Some(t) => str_eq(t, "object"),
        None => false,
    };
    is_object || schema.has("properties") || schema.has("patternProperties") || schema.has(
        "additionalProperties",
    ) || schema.has("unevaluatedProperties")
}

fn closes_exec(v: Option<&Value>) -> (r: bool)
    ensures
        r == closes(crate::json::opt_view(v)),
{
    match v {
        None => false,
        Some(Value::Bool(b)) => !*b,
        Some(_) => true,
    }
}

/// Whether the subschema forbids undefined properties, or is no node schema.
pub fn schema_allows_no_undefined_props(schema: &Value) -> (r: bool)
    ensures
        r == allows_no_undefined(schema@),
{
    if !is_node_schema(schema) {
        return true;
    }
    closes_exec(schema.get("additionalProperties")) || closes_exec(schema.get("unevaluatedProperties"))
}

// ---- the undefined-properties check --------------------------------------------------

pub open spec fn resolved_view(t: Seq<(String, bool)>) -> Seq<(Seq<char>, bool)> {
    t.map_values(|e: (String, bool)| (e.0@, e.1))
}

/// Whether the schema that `$ref` target `uri` names constrains undefined
/// properties; a target that did not resolve counts as constrained.
pub open spec fn ref_constrained(table: Seq<(Seq<char>, bool)>, uri: Seq<char>) -> bool
    decreases table.len(),
{
    if table.len() == 0 {
        true
    } else if table[0].0 == uri {
        table[0].1
    } else {
        ref_constrained(table.drop_first(), uri)
    }
}

/// Keywords under which a node subschema needs no constraint of its own.
pub open spec fn exempt_parent(p: Option<Seq<char>>) -> bool {
    match p {
        Some(k) => k == "if"@ || k == "select"@ || k == "definitions"@ || k == "$defs"@ || k
            == "then"@ || k == "else"@ || k == "dependencies"@ || k == "dependentSchemas"@,
        None => false,
    }
}

/// Keywords under which a subschema inherits its parent's constraint.
pub open spec fn combinator_parent(p: Option<Seq<char>>) -> bool {
    match p {
        Some(k) => k == "oneOf"@ || k == "allOf"@ || k == "anyOf"@,
        None => false,
    }
}

/// The warning for a node subschema under `parent` without a constraint.
pub open spec fn missing_line(filename: Seq<char>, parent: Option<Seq<char>>) -> Seq<char> {
    filename + ": "@ + match parent {
        Some(p) => p,
        None => Seq::empty(),
    } + ": Missing additionalProperties/unevaluatedProperties constraint"@
}

/// The warnings for `j` and below: a node subschema that neither carries nor
/// inherits a constraint on undefined properties, nor refers to a schema with
/// one, nor sits in a document whose top level is open, is reported.
pub open spec fn refs_lines(
    j: Json,
    filename: Seq<char>,
    parent: Option<Seq<char>>,
    is_common: bool,
    has_constraint: bool,
    table: Seq<(Seq<char>, bool)>,
) -> Seq<Seq<char>>
    decreases j,
{
    match j {
        Json::Object(m) => {
            if exempt_parent(parent) {
                Seq::empty()
            } else {
                let hc = if node_schema(j) && !combinator_parent(parent) {
                    allows_no_undefined(j)
                } else {
                    has_constraint
                };
                let ref_c = match j.get("$ref"@) {
                    Some(Json::Str(r)) => ref_constrained(table, trim_end_char(r, '#')),
                    _ => true,
                };
                let has_uneval = obj_has(m, "additionalProperties"@) || obj_has(
                    m,
                    "unevaluatedProperties"@,
                );
                let own = if !(is_common || ref_c || hc || has_uneval) {
                    seq![missing_line(filename, parent)]
                } else {
                    Seq::empty()
                };
                own + refs_lines_entries(m, filename, is_common, hc, table)
            }
        },
        Json::Array(a) => refs_lines_seq(a, filename, parent, is_common, has_constraint, table),
        _ => Seq::empty(),
    }
}

pub open spec fn refs_lines_entries(
    m: Entries,
    filename: Seq<char>,
    is_common: bool,
    has_constraint: bool,
    table: Seq<(Seq<char>, bool)>,
) -> Seq<Seq<char>>
    decreases m,
{
    if m.len() == 0 {
        Seq::empty()
    } else {
        refs_lines_entries(m.drop_last(), filename, is_common, has_constraint, table) + refs_lines(
            m.last().1,
            filename,
            Some(m.last().0),
            is_common,
            has_constraint,
            table,
        )
    }
}

pub open spec fn refs_lines_seq(
    a: Seq<Json>,
    filename: Seq<char>,
    parent: Option<Seq<char>>,
    is_common: bool,
    has_constraint: bool,
    table: Seq<(Seq<char>, bool)>,
) -> Seq<Seq<char>>
    decreases a,
{
    if a.len() == 0 {
        Seq::empty()
    } else {
        refs_lines_seq(a.drop_last(), filename, parent, is_common, has_constraint, table) + refs_lines(
            a.last(),
            filename,
            parent,
            is_common,
            has_constraint,
            table,
        )
    }
}

/// The warnings for a whole document: at the top, the document itself says
/// whether undefined properties are open.
pub open spec fn refs_report(j: Json, filename: Seq<char>, table: Seq<(Seq<char>, bool)>) -> Seq<Seq<char>> {
    refs_lines(j, filename, None, !allows_no_undefined(j), false, table)
}

fn ref_constrained_exec(table: &Vec<(String, bool)>, uri: &str) -> (r: bool)
    ensures
        r == ref_constrained(resolved_view(table@), uri@),
{
    let ghost t = resolved_view(table@);
    let mut i: usize = 0;
    assert(t.skip(0) =~= t);
    while i < table.len()
        invariant
            i <= table@.len(),
            t == resolved_view(table@),
            t.len() == table@.len(),
            ref_constrained(t, uri@) == ref_constrained(t.skip(i as int), uri@),
        decreases table.len() - i,
    {
        assert(t.skip(i as int)[0] == t[i as int]);
        assert(t.skip(i as int).drop_first() =~= t.skip(i + 1));
        if str_eq(table[i].0.as_str(), uri) {
            return table[i].1;
        }
        i += 1;
    }
    assert(t.skip(i as int) =~= Seq::<(Seq<char>, bool)>::empty());
    true
}

fn is_exempt_parent(p: Option<&str>) -> (r: bool)
    ensures
        r == exempt_parent(crate::diagnostic::opt_str(p)),
{
    match p {
        Some(k) => str_eq(k, "if") || str_eq(k, "select") || str_eq(k, "definitions") || str_eq(
            k,
            "$defs",
        ) || str_eq(k, "then") || str_eq(k, "else") || str_eq(k, "dependencies") || str_eq(
            k,
            "dependentSchemas",
        ),
        None => false,
    }
}

fn is_combinator_parent(p: Option<&str>) -> (r: bool)
    ensures
        r == combinator_parent(crate::diagnostic::opt_str(p)),
{
    match p {
        Some(k) => str_eq(k, "oneOf") || str_eq(k, "allOf") || str_eq(k, "anyOf"),
        None => false,
    }
}

fn check_refs_rec(
    schema: &Value,
    filename: &str,
    parent: Option<&str>,
    is_common: bool,
    has_constraint: bool,
    table: &Vec<(String, bool)>,
    out: &mut Vec<String>,
)
    ensures
        strings_view(final(out)@) == strings_view(old(out)@) + refs_lines(
            schema@,
            filename@,
            crate::diagnostic::opt_str(parent),
            is_common,
            has_constraint,
            resolved_view(table@),
        ),
    decreases schema@,
{
    let ghost jv = schema@;
    let ghost t = resolved_view(table@);
    let ghost out0 = strings_view(out@);
    match schema {
        Value::Object(m) => {
            if is_exempt_parent(parent) {
                assert(strings_view(out@) =~= out0 + Seq::<Seq<char>>::empty());
                return;
            }
            let hc = if is_node_schema(schema) && !is_combinator_parent(parent) {
                schema_allows_no_undefined_props(schema)
            } else {
                has_constraint
            };
            let ref_c = match schema.get("$ref") {
                Some(Value::Str(r)) => {
                    let uri = trim_end_matches(r.as_str(), '#');
                    ref_constrained_exec(table, uri.as_str())
                },
                _ => true,
            };
            let has_uneval = field_contains(m, "additionalProperties") || field_contains(
                m,
                "unevaluatedProperties",
            );
            if !(is_common || ref_c || hc || has_uneval) {
                let line = concat(filename, ": ");
                let line = match parent {
                    Some(p) => concat(line.as_str(), p),
                    None => line,
                };
                let line = concat(line.as_str(), ": Missing additionalProperties/unevaluatedProperties constraint");
                let ghost before = strings_view(out@);
                out.push(line);
                assert(strings_view(out@) =~= before.push(missing_line(filename@, crate::diagnostic::opt_str(parent))));
            }
            let ghost out1 = strings_view(out@);
            let ghost e = view_entries(m@);
            proof {
                lemma_view_entries(m@);
            }
            let mut i: usize = 0;
            assert(out1 =~= out1 + refs_lines_entries(e.take(0), filename@, is_common, hc, t));
            while i < m.len()
                invariant
                    i <= m@.len(),
                    e == view_entries(m@),
                    e.len() == m@.len(),
                    jv == Json::Object(e),
                    jv == schema@,
                    t == resolved_view(table@),
                    forall|j: int| 0 <= j < m@.len() ==> #[trigger] e[j] == (m@[j].0@, m@[j].1@),
                    strings_view(out@) == out1 + refs_lines_entries(e.take(i as int), filename@, is_common, hc, t),
                decreases m.len() - i,
            {
                proof {
                    assert(e[i as int] == (m@[i as int].0@, m@[i as int].1@));
                    assert(decreases_to!(jv => jv->Object_0));
                    assert(decreases_to!(jv->Object_0 => jv->Object_0[i as int]));
                    assert(decreases_to!(jv->Object_0[i as int] => jv->Object_0[i as int].1));
                    assert(decreases_to!(jv => m@[i as int].1@));
                    assert(e.take(i + 1).drop_last() =~= e.take(i as int));
                }
                let ghost before = strings_view(out@);
                check_refs_rec(&m[i].1, filename, Some(m[i].0.as_str()), is_common, hc, table, out);
                proof {
                    assert(strings_view(out@) =~= out1 + refs_lines_entries(e.take(i + 1), filename@, is_common, hc, t));
                }
                i += 1;
            }
            assert(e.take(i as int) =~= e);
        },
        Value::Array(a) => {
            let ghost s = view_seq(a@);
            proof {
                lemma_view_seq(a@);
            }
            let mut i: usize = 0;
            assert(out0 =~= out0 + refs_lines_seq(s.take(0), filename@, crate::diagnostic::opt_str(parent), is_common, has_constraint, t));
            while i < a.len()
                invariant
                    i <= a@.len(),
                    s == view_seq(a@),
                    s.len() == a@.len(),
                    jv == Json::Array(s),
                    jv == schema@,
                    t == resolved_view(table@),
                    forall|j: int| 0 <= j < a@.len() ==> #[trigger] s[j] == a@[j]@,
                    strings_view(out@) == out0 + refs_lines_seq(s.take(i as int), filename@, crate::diagnostic::opt_str(parent), is_common, has_constraint, t),
                decreases a.len() - i,
            {
                proof {
                    assert(s[i as int] == a@[i as int]@);
                    assert(decreases_to!(jv => jv->Array_0));
                    assert(decreases_to!(jv->Array_0 => jv->Array_0[i as int]));
                    assert(decreases_to!(jv => a@[i as int]@));
                    assert(s.take(i + 1).drop_last() =~= s.take(i as int));
                }
                check_refs_rec(&a[i], filename, parent, is_common, has_constraint, table, out);
                proof {
                    assert(strings_view(out@) =~= out0 + refs_lines_seq(s.take(i + 1), filename@, crate::diagnostic::opt_str(parent), is_common, has_constraint, t));
                }
                i += 1;
            }
            assert(s.take(i as int) =~= s);
        },
        _ => {
            assert(strings_view(out@) =~= out0 + Seq::<Seq<char>>::empty());
        },
    }
}

// ---- meta-schema error lines -----------------------------------------------------------

/// Instance-path segments as `a:0:b:`.
pub open spec fn segs_text(path: Seq<PathSeg>) -> Seq<char>
    decreases path.len(),
{
    if path.len() == 0 {
        Seq::empty()
    } else {
        segs_text(path.drop_last()) + crate::validator::seg_text(path.last()) + ":"@
    }
}

/// A meta-schema error as a `dt-doc-validate` line:
/// `<abspath>: <segments> <message>`.
pub open spec fn meta_error_line(abs: Seq<char>, path: Seq<PathSeg>, message: Seq<char>) -> Seq<char> {
    abs + ": "@ + segs_text(path) + (if path.len() > 0 {
        " "@
    } else {
        Seq::empty()
    }) + message
}

/// A meta-schema error as a `dt-doc-validate` line.
pub fn format_meta_error(abs: &str, path: &Vec<PathSeg>, message: &str) -> (r: String)
    ensures
        r@ == meta_error_line(abs@, path@, message@),
{
    let mut src = concat(abs, ": ");
    let ghost start = src@;
    let mut i: usize = 0;
    assert(path@.take(0) =~= Seq::<PathSeg>::empty());
    while i < path.len()
        invariant
            i <= path@.len(),
            src@ == start + segs_text(path@.take(i as int)),
        decreases path.len() - i,
    {
        let seg = path[i].to_display();
        push_str(&mut src, seg.as_str());
        push_str(&mut src, ":");
        assert(path@.take(i + 1).drop_last() =~= path@.take(i as int));
        i += 1;
        assert(src@ =~= start + segs_text(path@.take(i as int)));
    }
    assert(path@.take(i as int) =~= path@);
    if path.len() > 0 {
        push_str(&mut src, " ");
    }
    push_str(&mut src, message);
    assert(src@ =~= meta_error_line(abs@, path@, message@));
    src
}

/// Insert `x` after the lines that do not order after it.
pub open spec fn sorted_insert(s: Seq<Seq<char>>, x: Seq<char>) -> Seq<Seq<char>> {
    s.insert(str_insert_pos(s, x, 0), x)
}

/// Lines in ascending order, equal lines kept in their order.
pub open spec fn sort_lines_spec(s: Seq<Seq<char>>) -> Seq<Seq<char>>
    decreases s.len(),
{
    if s.len() == 0 {
        s
    } else {
        sorted_insert(sort_lines_spec(s.drop_last()), s.last())
    }
}

/// Sort lines in ascending order.
pub fn sort_lines(lines: Vec<String>) -> (r: Vec<String>)
    ensures
        strings_view(r@) == sort_lines_spec(strings_view(lines@)),
{
    let ghost lv = strings_view(lines@);
    let mut out: Vec<String> = Vec::new();
    let mut i: usize = 0;
    assert(strings_view(out@) =~= sort_lines_spec(lv.take(0)));
    while i < lines.len()
        invariant
            i <= lines@.len(),
            lv == strings_view(lines@),
            lv.len() == lines@.len(),
            strings_view(out@) == sort_lines_spec(lv.take(i as int)),
        decreases lines.len() - i,
    {
        assert(lv.take(i + 1).drop_last() =~= lv.take(i as int));
        assert(lv.take(i + 1).last() == lines@[i as int]@);
        let x = lines[i].clone();
        let xc = chars_of(x.as_str());
        let p = str_pos(&out, xc.as_slice(), Ghost(x@));
        let ghost before = strings_view(out@);
        let ghost xv = x@;
        out.insert(p, x);
        assert(strings_view(out@) =~= before.insert(p as int, xv));
        i += 1;
    }
    assert(lv.take(i as int) =~= lv);
    out
}

/// No line orders before a line ahead of it.
pub open spec fn lines_sorted(s: Seq<Seq<char>>) -> bool {
    forall|i: int, j: int| 0 <= i < j < s.len() ==> !seq_lt(#[trigger] s[j], #[trigger] s[i])
}

proof fn lemma_sorted_insert(s: Seq<Seq<char>>, x: Seq<char>)
    requires
        lines_sorted(s),
    ensures
        lines_sorted(sorted_insert(s, x)),
        sorted_insert(s, x).to_multiset() == s.to_multiset().insert(x),
{
    crate::lib_helpers::lemma_str_insert_pos_bounds(s, x, 0);
    let p = str_insert_pos(s, x, 0);
    let r = s.insert(p, x);
    vstd::seq_lib::to_multiset_insert(s, p, x);
    assert forall|j: int| p <= j < s.len() implies !seq_lt(#[trigger] s[j], x) by {
        if seq_lt(s[j], x) {
            crate::strings::lemma_seq_lt_transitive(s[j], x, s[p]);
            if j > p {
                assert(!seq_lt(s[j], s[p]));
            } else {
                crate::strings::lemma_seq_lt_irreflexive(s[j]);
            }
        }
    }
    assert forall|a: int, b: int| 0 <= a < b < r.len() implies !seq_lt(#[trigger] r[b], #[trigger] r[a]) by {
        if b < p {
            assert(r[a] == s[a] && r[b] == s[b]);
        } else if b == p {
            assert(r[a] == s[a]);
        } else if a < p {
            assert(r[a] == s[a] && r[b] == s[b - 1]);
            if seq_lt(s[b - 1], s[a]) {
                assert(!seq_lt(x, s[a]));
                crate::strings::lemma_seq_lt_total(x, s[a]);
                if x == s[a] {
                } else {
                    crate::strings::lemma_seq_lt_transitive(s[b - 1], s[a], x);
                }
            }
        } else if a == p {
            assert(r[b] == s[b - 1]);
        } else {
            assert(r[a] == s[a - 1] && r[b] == s[b - 1]);
        }
    }
}

/// Sorting gives the same lines, each as often, with no line ordering before
/// one ahead of it.
pub proof fn lemma_sort_lines(s: Seq<Seq<char>>)
    ensures
        lines_sorted(sort_lines_spec(s)),
        sort_lines_spec(s).to_multiset() == s.to_multiset(),
    decreases s.len(),
{
    if s.len() == 0 {
        assert(s.to_multiset() =~= Multiset::<Seq<char>>::empty()) by {
            broadcast use vstd::seq_lib::group_to_multiset_ensures;
        }
        assert(sort_lines_spec(s).to_multiset() =~= Multiset::<Seq<char>>::empty()) by {
            broadcast use vstd::seq_lib::group_to_multiset_ensures;
        }
    } else {
        lemma_sort_lines(s.drop_last());
        lemma_sorted_insert(sort_lines_spec(s.drop_last()), s.last());
        vstd::seq_lib::to_multiset_build(s.drop_last(), s.last());
        assert(s.drop_last().push(s.last()) =~= s);
    }
}

/// The `dt-doc-validate` lines for the meta-schema errors of the file shown
/// as `abs`, sorted.
pub fn format_meta_errors(abs: &str, errors: &Vec<(Vec<PathSeg>, String)>) -> (r: Vec<String>)
    ensures
        strings_view(r@) == sort_lines_spec(
            errors@.map_values(|e: (Vec<PathSeg>, String)| meta_error_line(abs@, e.0@, e.1@)),
        ),
{
    let mut lines: Vec<String> = Vec::new();
    let mut i: usize = 0;
    while i < errors.len()
        invariant
            i <= errors@.len(),
            lines@.len() == i,
            forall|j: int| 0 <= j < i ==> #[trigger] lines@[j]@ == meta_error_line(abs@, errors@[j].0@, errors@[j].1@),
        decreases errors.len() - i,
    {
        lines.push(format_meta_error(abs, &errors[i].0, errors[i].1.as_str()));
        i += 1;
    }
    assert(strings_view(lines@) =~= errors@.map_values(
        |e: (Vec<PathSeg>, String)| meta_error_line(abs@, e.0@, e.1@),
    ));
    sort_lines(lines)
}

} // verus!

verus! {

/// The relative paths, in the order they are tried, at which the document
/// named by a `http://devicetree.org/` reference is looked for under each
/// root: the path after the base URL (trailing `#` removed), then, for a
/// path under `schemas/`, the path inside `schemas/` (for roots that are a
/// binding's own directory). Other references name no file.
pub open spec fn reference_paths(uri: Seq<char>) -> Seq<Seq<char>> {
    let u = trim_end_char(uri, '#');
    let base = "http://devicetree.org/"@;
    if seq_starts_with(u, base) {
        let rel = u.skip(base.len() as int);
        if seq_starts_with(rel, "schemas/"@) {
            seq![rel, rel.skip("schemas/"@.len() as int)]
        } else {
            seq![rel]
        }
    } else {
        Seq::empty()
    }
}

/// The relative paths at which a referenced document is looked for.
pub fn reference_paths_of(uri: &str) -> (r: Vec<String>)
    ensures
        strings_view(r@) == reference_paths(uri@),
{
    let u = trim_end_matches(uri, '#');
    let mut out: Vec<String> = Vec::new();
    match strip_prefix(u.as_str(), "http://devicetree.org/") {
        None => {},
        Some(rel) => {
            let inner = strip_prefix(rel.as_str(), "schemas/");
            out.push(rel);
            match inner {
                Some(x) => out.push(x),
                None => {},
            }
        },
    }
    assert(strings_view(out@) =~= reference_paths(uri@));
    out
}

} // verus!
