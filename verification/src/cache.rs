//! The per-DTB diagnostics cache: its content-addressed key, and the
//! documents it stores.
//!
//! A cache entry is keyed by the SHA-256 of the canonical JSON of
//! `{cache_version, dtschema_version, dtb_hash, schema_hash, options}`.
//! Stored diagnostics name the DTB by the `$dtb` sentinel, so an entry can be
//! reused when only the DTB's path changes.
use vstd::prelude::*;
use crate::diagnostic::{replace_filename_prefix, replace_lines};
use crate::json::{lemma_view_entries, lemma_view_seq, view_entries, view_seq, Entries, Json, Value};
use crate::jsontext::{canonical_json, canonical_text};
use crate::strings::str_eq;
use crate::trusted::{push_char, sha256_digest, sha256_of};

verus! {

/// Cache format version shared with the installed tools.
pub const CACHE_VERSION: u64 = 2;

/// Filename sentinel stored in place of the real DTB path.
pub const CACHE_DTB_FILENAME: &'static str = "$dtb";

// ---- hex text -----------------------------------------------------------------------

pub open spec fn hex_chars() -> Seq<char> {
    seq!['0', '1', '2', '3', '4', '5', '6', '7', '8', '9', 'a', 'b', 'c', 'd', 'e', 'f']
}

/// Two lowercase hex digits per byte.
pub open spec fn hex_text(b: Seq<u8>) -> Seq<char>
    decreases b.len(),
{
    if b.len() == 0 {
        Seq::empty()
    } else {
        hex_text(b.drop_last()) + seq![
            hex_chars()[(b.last() / 16) as int],
            hex_chars()[(b.last() % 16) as int],
        ]
    }
}

fn hex_digit(n: u8) -> (c: char)
    requires
        n < 16,
    ensures
        c == hex_chars()[n as int],
{
    if n < 8 {
        if n < 4 {
            if n == 0 { '0' } else if n == 1 { '1' } else if n == 2 { '2' } else { '3' }
        } else {
            if n == 4 { '4' } else if n == 5 { '5' } else if n == 6 { '6' } else { '7' }
        }
    } else {
        if n < 12 {
            if n == 8 { '8' } else if n == 9 { '9' } else if n == 10 { 'a' } else { 'b' }
        } else {
            if n == 12 { 'c' } else if n == 13 { 'd' } else if n == 14 { 'e' } else { 'f' }
        }
    }
}

/// Lowercase hex text of a byte string.
pub fn hex(bytes: &[u8]) -> (r: String)
    ensures
        r@ == hex_text(bytes@),
{
    let mut s = String::new();
    let mut i: usize = 0;
    assert(bytes@.take(0) =~= Seq::<u8>::empty());
    while i < bytes.len()
        invariant
            i <= bytes@.len(),
            s@ == hex_text(bytes@.take(i as int)),
        decreases bytes.len() - i,
    {
        let b = bytes[i];
        push_char(&mut s, hex_digit(b / 16));
        push_char(&mut s, hex_digit(b % 16));
        assert(bytes@.take(i + 1).drop_last() =~= bytes@.take(i as int));
        i += 1;
        assert(s@ =~= hex_text(bytes@.take(i as int)));
    }
    assert(bytes@.take(i as int) =~= bytes@);
    s
}

/// Lowercase hex SHA-256 of a byte string.
pub fn sha256_hex(data: &[u8]) -> (r: String)
    ensures
        r@ == hex_text(sha256_of(data@)),
        r@.len() == 64,
{
    let d = sha256_digest(data);
    proof {
        lemma_hex_len(d@);
    }
    hex(d.as_slice())
}

pub proof fn lemma_hex_len(b: Seq<u8>)
    ensures
        hex_text(b).len() == 2 * b.len(),
    decreases b.len(),
{
    if b.len() > 0 {
        lemma_hex_len(b.drop_last());
    }
}

// ---- cache options ---------------------------------------------------------------------

/// The options that select which diagnostics a validation run produces; they
/// are part of the cache key.
pub struct CacheOptions {
    pub compatible_match: bool,
    pub limit: Option<Vec<String>>,
    pub show_unmatched: bool,
    pub verbose: bool,
}

pub open spec fn limit_json(l: Option<Vec<String>>) -> Json {
    match l {
        Some(v) => Json::Array(v@.map_values(|s: String| Json::Str(s@))),
        None => Json::Null,
    }
}

impl CacheOptions {
    /// The options as a JSON object.
    pub open spec fn spec_json(&self) -> Json {
        Json::Object(
            seq![
                ("compatible_match"@, Json::Bool(self.compatible_match)),
                ("limit"@, limit_json(self.limit)),
                ("show_unmatched"@, Json::Bool(self.show_unmatched)),
                ("verbose"@, Json::Bool(self.verbose)),
            ],
        )
    }

    /// The options as a JSON object.
    pub fn to_json(&self) -> (r: Value)
        ensures
            r@ == self.spec_json(),
    {
        let limit = match &self.limit {
            Some(l) => {
                let mut items: Vec<Value> = Vec::new();
                let mut i: usize = 0;
                while i < l.len()
                    invariant
                        i <= l@.len(),
                        items@.len() == i,
                        forall|j: int| 0 <= j < i ==> #[trigger] items@[j]@ == Json::Str(l@[j]@),
                    decreases l.len() - i,
                {
                    items.push(Value::Str(l[i].clone()));
                    i += 1;
                }
                proof {
                    lemma_view_seq(items@);
                    assert(view_seq(items@) =~= l@.map_values(|s: String| Json::Str(s@)));
                }
                Value::Array(items)
            },
            None => Value::Null,
        };
        let ghost lv = limit@;
        let mut o: Vec<(String, Value)> = Vec::new();
        o.push(("compatible_match".to_owned(), Value::Bool(self.compatible_match)));
        o.push(("limit".to_owned(), limit));
        o.push(("show_unmatched".to_owned(), Value::Bool(self.show_unmatched)));
        o.push(("verbose".to_owned(), Value::Bool(self.verbose)));
        proof {
            lemma_view_entries(o@);
            assert(view_entries(o@) =~= self.spec_json()->Object_0);
        }
        Value::Object(o)
    }
}

// ---- cache keys ---------------------------------------------------------------------

/// A validation-diagnostics cache: where it lives and what every key holds
/// besides the DTB's own hash.
pub struct ValidationCache {
    pub cache_dir: String,
    pub schema_hash: Option<String>,
    pub dtschema_version: String,
    pub options: Value,
}

/// The JSON object whose canonical text is hashed into a cache key.
pub open spec fn key_json(version: Seq<char>, dtb_hash: Seq<char>, schema_hash: Option<Seq<char>>, options: Json) -> Json {
    Json::Object(
        seq![
            ("cache_version"@, Json::Int(CACHE_VERSION as int)),
            ("dtb_hash"@, Json::Str(dtb_hash)),
            ("dtschema_version"@, Json::Str(version)),
            ("options"@, options),
            (
                "schema_hash"@,
                match schema_hash {
                    Some(h) => Json::Str(h),
                    None => Json::Null,
                },
            ),
        ],
    )
}

impl ValidationCache {
    /// A cache rooted at `cache_dir`; `schema_hash` is the hash of the schema
    /// file in use, if any, which goes into every key.
    pub fn new(cache_dir: String, schema_hash: Option<String>, dtschema_version: String, options: &CacheOptions) -> (r: Self)
        ensures
            r.cache_dir@ == cache_dir@,
            crate::diagnostic::opt_string(r.schema_hash) == crate::diagnostic::opt_string(schema_hash),
            r.dtschema_version@ == dtschema_version@,
            r.options@ == options.spec_json(),
    {
        ValidationCache { cache_dir, schema_hash, dtschema_version, options: options.to_json() }
    }

    /// The cache key of a DTB whose contents hash to `dtb_hash`: the hex
    /// SHA-256 of the canonical key object.
    pub fn cache_key(&self, dtb_hash: &str) -> (r: String)
        ensures
            r@ == hex_text(
                sha256_of(
                    vstd::utf8::encode_utf8(
                        canonical_text(
                            key_json(
                                self.dtschema_version@,
                                dtb_hash@,
                                crate::diagnostic::opt_string(self.schema_hash),
                                self.options@,
                            ),
                        ),
                    ),
                ),
            ),
    {
        let sh = match &self.schema_hash {
            Some(h) => Value::Str(h.clone()),
            None => Value::Null,
        };
        let ghost shv = sh@;
        let opts = crate::json::copy_value(&self.options);
        let ghost ov = opts@;
        let mut o: Vec<(String, Value)> = Vec::new();
        o.push(("cache_version".to_owned(), Value::Int(CACHE_VERSION as i128)));
        o.push(("dtb_hash".to_owned(), Value::Str(dtb_hash.to_owned())));
        o.push(("dtschema_version".to_owned(), Value::Str(self.dtschema_version.clone())));
        o.push(("options".to_owned(), opts));
        o.push(("schema_hash".to_owned(), sh));
        proof {
            lemma_view_entries(o@);
            assert(view_entries(o@) =~= key_json(
                self.dtschema_version@,
                dtb_hash@,
                crate::diagnostic::opt_string(self.schema_hash),
                self.options@,
            )->Object_0);
        }
        let key = Value::Object(o);
        let data = canonical_json(&key);
        sha256_hex(data.as_str().as_bytes())
    }
}

// ---- stored diagnostics ---------------------------------------------------------------

/// Rename the DTB in diagnostics: a `file` member equal to `old` becomes
/// `new`, and the lines of a `formatted` text that start with `old` start with
/// `new`; everything else is kept, recursively.
pub open spec fn map_filename(j: Json, old: Seq<char>, new: Seq<char>) -> Json
    decreases j,
{
    match j {
        Json::Array(a) => Json::Array(map_filename_seq(a, old, new)),
        Json::Object(m) => Json::Object(map_filename_entries(m, old, new)),
        other => other,
    }
}

pub open spec fn map_filename_seq(a: Seq<Json>, old: Seq<char>, new: Seq<char>) -> Seq<Json>
    decreases a,
{
    if a.len() == 0 {
        Seq::empty()
    } else {
        map_filename_seq(a.drop_last(), old, new).push(map_filename(a.last(), old, new))
    }
}

pub open spec fn map_filename_entries(m: Entries, old: Seq<char>, new: Seq<char>) -> Entries
    decreases m,
{
    if m.len() == 0 {
        Seq::empty()
    } else {
        let k = m.last().0;
        let v = m.last().1;
        let v2 = if k == "file"@ && v == Json::Str(old) {
            Json::Str(new)
        } else if k == "formatted"@ && v is Str {
            Json::Str(replace_lines(v->Str_0, old, new))
        } else {
            map_filename(v, old, new)
        };
        map_filename_entries(m.drop_last(), old, new).push((k, v2))
    }
}

/// Rename the DTB `old` to `new` throughout a diagnostic value.
pub fn map_diagnostic_filename(value: &Value, old: &str, new: &str) -> (r: Value)
    ensures
        r@ == map_filename(value@, old@, new@),
    decreases value@,
{
    let ghost jv = value@;
    match value {
        Value::Array(a) => {
            let ghost s = view_seq(a@);
            proof {
                lemma_view_seq(a@);
            }
            let mut out: Vec<Value> = Vec::new();
            let mut i: usize = 0;
            assert(s.take(0) =~= Seq::<Json>::empty());
            proof {
                lemma_view_seq(out@);
            }
            while i < a.len()
                invariant
                    i <= a@.len(),
                    s == view_seq(a@),
                    s.len() == a@.len(),
                    jv == Json::Array(s),
                    jv == value@,
                    forall|j: int| 0 <= j < a@.len() ==> #[trigger] s[j] == a@[j]@,
                    view_seq(out@) == map_filename_seq(s.take(i as int), old@, new@),
                decreases a.len() - i,
            {
                proof {
                    assert(s[i as int] == a@[i as int]@);
                    assert(decreases_to!(jv => jv->Array_0));
                    assert(decreases_to!(jv->Array_0 => jv->Array_0[i as int]));
                    assert(decreases_to!(jv => a@[i as int]@));
                }
                let ghost before = out@;
                let item = map_diagnostic_filename(&a[i], old, new);
                let ghost iv = item@;
                out.push(item);
                proof {
                    lemma_view_seq(before);
                    lemma_view_seq(out@);
                    assert(view_seq(out@) =~= view_seq(before).push(iv));
                    assert(s.take(i + 1).drop_last() =~= s.take(i as int));
                }
                i += 1;
            }
            assert(s.take(i as int) =~= s);
            Value::Array(out)
        },
        Value::Object(m) => {
            let ghost e = view_entries(m@);
            proof {
                lemma_view_entries(m@);
            }
            let mut out: Vec<(String, Value)> = Vec::new();
            let mut i: usize = 0;
            assert(e.take(0) =~= Seq::<(Seq<char>, Json)>::empty());
            proof {
                lemma_view_entries(out@);
            }
            while i < m.len()
                invariant
                    i <= m@.len(),
                    e == view_entries(m@),
                    e.len() == m@.len(),
                    jv == Json::Object(e),
                    jv == value@,
                    forall|j: int| 0 <= j < m@.len() ==> #[trigger] e[j] == (m@[j].0@, m@[j].1@),
                    view_entries(out@) == map_filename_entries(e.take(i as int), old@, new@),
                decreases m.len() - i,
            {
                let k = &m[i].0;
                let v = &m[i].1;
                let v2 = if str_eq(k.as_str(), "file") && match v {
                    Value::Str(s) => str_eq(s.as_str(), old),
                    _ => false,
                } {
                    Value::Str(new.to_owned())
                } else if str_eq(k.as_str(), "formatted") && matches!(v, Value::Str(_)) {
                    match v {
                        Value::Str(s) => Value::Str(replace_filename_prefix(s.as_str(), old, new)),
                        _ => Value::Null,
                    }
                } else {
                    proof {
                        assert(e[i as int] == (m@[i as int].0@, m@[i as int].1@));
                        assert(decreases_to!(jv => jv->Object_0));
                        assert(decreases_to!(jv->Object_0 => jv->Object_0[i as int]));
                        assert(decreases_to!(jv->Object_0[i as int] => jv->Object_0[i as int].1));
                        assert(decreases_to!(jv => m@[i as int].1@));
                    }
                    map_diagnostic_filename(v, old, new)
                };
                let ghost before = out@;
                let ghost ev = (e[i as int].0, v2@);
                out.push((k.clone(), v2));
                proof {
                    lemma_view_entries(before);
                    lemma_view_entries(out@);
                    assert(view_entries(out@) =~= view_entries(before).push(ev));
                    assert(e.take(i + 1).drop_last() =~= e.take(i as int));
                }
                i += 1;
            }
            assert(e.take(i as int) =~= e);
            Value::Object(out)
        },
        Value::Null => Value::Null,
        Value::Bool(b) => Value::Bool(*b),
        Value::Int(n) => Value::Int(*n),
        Value::Float(s) => Value::Float(s.clone()),
        Value::Str(s) => Value::Str(s.clone()),
    }
}

/// The document a cache entry stores: the format version and the
/// diagnostics with the DTB's display path `disp` replaced by `$dtb`.
pub open spec fn cache_doc(diagnostics: Seq<Json>, disp: Seq<char>) -> Json {
    Json::Object(
        seq![
            ("cache_version"@, Json::Int(CACHE_VERSION as int)),
            ("diagnostics"@, Json::Array(diagnostics.map_values(|d: Json| map_filename(d, disp, "$dtb"@)))),
        ],
    )
}

fn map_all(diagnostics: &Vec<Value>, old: &str, new: &str) -> (r: Vec<Value>)
    ensures
        view_seq(r@) == view_seq(diagnostics@).map_values(|d: Json| map_filename(d, old@, new@)),
{
    proof {
        lemma_view_seq(diagnostics@);
    }
    let mut out: Vec<Value> = Vec::new();
    let mut i: usize = 0;
    while i < diagnostics.len()
        invariant
            i <= diagnostics@.len(),
            out@.len() == i,
            forall|j: int| 0 <= j < i ==> #[trigger] out@[j]@ == map_filename(diagnostics@[j]@, old@, new@),
        decreases diagnostics.len() - i,
    {
        out.push(map_diagnostic_filename(&diagnostics[i], old, new));
        i += 1;
    }
    proof {
        lemma_view_seq(out@);
        assert(view_seq(out@) =~= view_seq(diagnostics@).map_values(|d: Json| map_filename(d, old@, new@)));
    }
    out
}

/// The document to store for `diagnostics` of the DTB shown as `disp`.
pub fn cache_document(diagnostics: &Vec<Value>, disp: &str) -> (r: Value)
    ensures
        r@ == cache_doc(view_seq(diagnostics@), disp@),
{
    let mapped = map_all(diagnostics, disp, CACHE_DTB_FILENAME);
    let ghost mv = view_seq(mapped@);
    let mut o: Vec<(String, Value)> = Vec::new();
    o.push(("cache_version".to_owned(), Value::Int(CACHE_VERSION as i128)));
    o.push(("diagnostics".to_owned(), Value::Array(mapped)));
    proof {
        lemma_view_entries(o@);
        assert(view_entries(o@) =~= cache_doc(view_seq(diagnostics@), disp@)->Object_0);
    }
    Value::Object(o)
}

/// The diagnostics a stored document holds, with `$dtb` replaced by the DTB's
/// display path `disp`; `None` when the document has no diagnostics list.
pub open spec fn cached_diags(doc: Json, disp: Seq<char>) -> Option<Seq<Json>> {
    match doc.get("diagnostics"@) {
        Some(Json::Array(a)) => Some(a.map_values(|d: Json| map_filename(d, "$dtb"@, disp))),
        _ => None,
    }
}

/// The diagnostics stored in a cache document, for the DTB shown as `disp`.
pub fn cached_diagnostics(doc: &Value, disp: &str) -> (r: Option<Vec<Value>>)
    ensures
        match r {
            Some(v) => cached_diags(doc@, disp@) == Some(view_seq(v@)),
            None => cached_diags(doc@, disp@) is None,
        },
{
    match doc.get("diagnostics") {
        Some(Value::Array(a)) => Some(map_all(a, CACHE_DTB_FILENAME, disp)),
        _ => None,
    }
}

// ---- laws of the cache -------------------------------------------------------------------

/// No `file` member of `j` is `name`, and no line of a `formatted` text
/// starts with `name:`.
pub open spec fn free_of(j: Json, name: Seq<char>) -> bool
    decreases j,
{
    match j {
        Json::Array(a) => free_of_seq(a, name),
        Json::Object(m) => free_of_entries(m, name),
        _ => true,
    }
}

pub open spec fn free_of_seq(a: Seq<Json>, name: Seq<char>) -> bool
    decreases a,
{
    if a.len() == 0 {
        true
    } else {
        free_of_seq(a.drop_last(), name) && free_of(a.last(), name)
    }
}

pub open spec fn free_of_entries(m: Entries, name: Seq<char>) -> bool
    decreases m,
{
    if m.len() == 0 {
        true
    } else {
        let k = m.last().0;
        let v = m.last().1;
        free_of_entries(m.drop_last(), name) && if k == "file"@ && v is Str {
            v != Json::Str(name)
        } else if k == "formatted"@ && v is Str {
            crate::diagnostic::no_line_tagged(v->Str_0, name)
        } else {
            free_of(v, name)
        }
    }
}

/// Renaming `old` to `new` and back gives a value back that did not name `new`.
pub proof fn lemma_map_filename_roundtrip(j: Json, old: Seq<char>, new: Seq<char>)
    requires
        crate::diagnostic::line_name(new),
        free_of(j, new),
    ensures
        map_filename(map_filename(j, old, new), new, old) == j,
    decreases j,
{
    match j {
        Json::Array(a) => {
            lemma_map_filename_seq_roundtrip(a, old, new);
        },
        Json::Object(m) => {
            lemma_map_filename_entries_roundtrip(m, old, new);
        },
        _ => {},
    }
}

proof fn lemma_map_filename_seq_roundtrip(a: Seq<Json>, old: Seq<char>, new: Seq<char>)
    requires
        crate::diagnostic::line_name(new),
        free_of_seq(a, new),
    ensures
        map_filename_seq(map_filename_seq(a, old, new), new, old) == a,
    decreases a,
{
    if a.len() > 0 {
        lemma_map_filename_seq_roundtrip(a.drop_last(), old, new);
        lemma_map_filename_roundtrip(a.last(), old, new);
        let r = map_filename_seq(a, old, new);
        assert(r.drop_last() == map_filename_seq(a.drop_last(), old, new));
        assert(a.drop_last().push(a.last()) =~= a);
    }
}

proof fn lemma_map_filename_entries_roundtrip(m: Entries, old: Seq<char>, new: Seq<char>)
    requires
        crate::diagnostic::line_name(new),
        free_of_entries(m, new),
    ensures
        map_filename_entries(map_filename_entries(m, old, new), new, old) == m,
    decreases m,
{
    reveal_strlit("file");
    reveal_strlit("formatted");
    if m.len() > 0 {
        let k = m.last().0;
        let v = m.last().1;
        lemma_map_filename_entries_roundtrip(m.drop_last(), old, new);
        let r = map_filename_entries(m, old, new);
        assert(r.drop_last() == map_filename_entries(m.drop_last(), old, new));
        let v2 = r.last().1;
        if k == "file"@ && v == Json::Str(old) {
            assert(v2 == Json::Str(new));
        } else if k == "formatted"@ && v is Str {
            assert("formatted"@.len() == 9 && "file"@.len() == 4);
            assert(k != "file"@);
            assert(crate::diagnostic::no_line_tagged(v->Str_0, new));
            crate::diagnostic::lemma_replace_lines_roundtrip(v->Str_0, old, new);
        } else {
            lemma_map_filename_roundtrip(v, old, new);
            assert(v2 == map_filename(v, old, new));
            if k == "formatted"@ {
                assert(!(v2 is Str));
            }
        }
        assert(m.drop_last().push(m.last()) =~= m);
    }
}

/// What the cache stores for diagnostics reads back as those diagnostics:
/// storing them for the DTB shown as `disp` and loading them for the same
/// DTB gives them back, when the diagnostics did not already name the `$dtb`
/// sentinel.
pub proof fn lemma_cache_roundtrip(diagnostics: Seq<Json>, disp: Seq<char>)
    requires
        forall|i: int| 0 <= i < diagnostics.len() ==> free_of(#[trigger] diagnostics[i], "$dtb"@),
    ensures
        cached_diags(cache_doc(diagnostics, disp), disp) == Some(diagnostics),
{
    reveal_strlit("$dtb");
    reveal_strlit("cache_version");
    reveal_strlit("diagnostics");
    assert("cache_version"@.len() == 13);
    assert("diagnostics"@.len() == 11);
    let doc = cache_doc(diagnostics, disp);
    let stored = diagnostics.map_values(|d: Json| map_filename(d, disp, "$dtb"@));
    assert(doc->Object_0[1] == ("diagnostics"@, Json::Array(stored)));
    assert(doc.get("diagnostics"@) == Some(Json::Array(stored))) by {
        assert(doc->Object_0[0].0 == "cache_version"@);
        assert(doc->Object_0[0].0 != "diagnostics"@);
        assert(crate::json::find_from(doc->Object_0, "diagnostics"@, 1) == 1);
    }
    let back = stored.map_values(|d: Json| map_filename(d, "$dtb"@, disp));
    assert forall|i: int| 0 <= i < diagnostics.len() implies #[trigger] back[i] == diagnostics[i] by {
        lemma_map_filename_roundtrip(diagnostics[i], disp, "$dtb"@);
    }
    assert(back =~= diagnostics);
}

} // verus!
