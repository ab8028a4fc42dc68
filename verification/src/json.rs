//! A JSON document tree and its mathematical model.
//!
//! Objects keep their entries ordered by key, the order in which a JSON object
//! map that sorts its keys iterates them; inserting a new key puts it at its
//! place in that order and inserting an existing key replaces its value in place.
use vstd::prelude::*;
use crate::strings::{seq_lt, str_eq, str_lt};

verus! {

/// A JSON value. Numbers are integers; a number with a fraction or exponent is
/// kept as its decimal text.
#[derive(Debug)]
pub enum Value {
    Null,
    Bool(bool),
    Int(i128),
    Float(String),
    Str(String),
    Array(Vec<Value>),
    Object(Vec<(String, Value)>),
}

/// The model of a [`Value`].
pub enum Json {
    Null,
    Bool(bool),
    Int(int),
    Float(Seq<char>),
    Str(Seq<char>),
    Array(Seq<Json>),
    Object(Seq<(Seq<char>, Json)>),
}

/// Entries of an object model.
pub type Entries = Seq<(Seq<char>, Json)>;

impl View for Value {
    type V = Json;

    open spec fn view(&self) -> Json
        decreases self,
    {
        match self {
            Value::Null => Json::Null,
            Value::Bool(b) => Json::Bool(*b),
            Value::Int(i) => Json::Int(*i as int),
            Value::Float(s) => Json::Float(s@),
            Value::Str(s) => Json::Str(s@),
            Value::Array(a) => Json::Array(view_seq(a@)),
            Value::Object(o) => Json::Object(view_entries(o@)),
        }
    }
}

pub open spec fn view_seq(s: Seq<Value>) -> Seq<Json>
    decreases s,
{
    if s.len() == 0 {
        Seq::empty()
    } else {
        view_seq(s.drop_last()).push(s.last().view())
    }
}

pub open spec fn view_entries(s: Seq<(String, Value)>) -> Entries
    decreases s,
{
    if s.len() == 0 {
        Seq::empty()
    } else {
        view_entries(s.drop_last()).push((s.last().0@, s.last().1.view()))
    }
}

pub open spec fn opt_view(r: Option<&Value>) -> Option<Json> {
    match r {
        Some(v) => Some(v@),
        None => None,
    }
}

pub open spec fn opt_val(r: Option<Value>) -> Option<Json> {
    match r {
        Some(v) => Some(v@),
        None => None,
    }
}

pub proof fn lemma_view_seq(s: Seq<Value>)
    ensures
        view_seq(s).len() == s.len(),
        forall|i: int| 0 <= i < s.len() ==> #[trigger] view_seq(s)[i] == s[i]@,
    decreases s.len(),
{
    if s.len() > 0 {
        lemma_view_seq(s.drop_last());
        assert(view_seq(s) == view_seq(s.drop_last()).push(s.last().view()));
    } else {
        assert(view_seq(s) == Seq::<Json>::empty());
    }
}

pub proof fn lemma_view_entries(s: Seq<(String, Value)>)
    ensures
        view_entries(s).len() == s.len(),
        forall|i: int| 0 <= i < s.len() ==> #[trigger] view_entries(s)[i] == (s[i].0@, s[i].1@),
    decreases s.len(),
{
    if s.len() > 0 {
        lemma_view_entries(s.drop_last());
        assert(view_entries(s) == view_entries(s.drop_last()).push((s.last().0@, s.last().1.view())));
    } else {
        assert(view_entries(s) == Seq::<(Seq<char>, Json)>::empty());
    }
}

/// Two value sequences with pointwise equal models have equal models.
pub proof fn lemma_view_seq_ext(a: Seq<Value>, b: Seq<Value>)
    requires
        a.len() == b.len(),
        forall|i: int| 0 <= i < a.len() ==> #[trigger] a[i]@ == b[i]@,
    ensures
        view_seq(a) == view_seq(b),
{
    lemma_view_seq(a);
    lemma_view_seq(b);
    assert(view_seq(a) =~= view_seq(b));
}

pub proof fn lemma_view_entries_ext(a: Seq<(String, Value)>, b: Seq<(String, Value)>)
    requires
        a.len() == b.len(),
        forall|i: int| 0 <= i < a.len() ==> #[trigger] a[i].0@ == b[i].0@ && a[i].1@ == b[i].1@,
    ensures
        view_entries(a) == view_entries(b),
{
    lemma_view_entries(a);
    lemma_view_entries(b);
    assert(view_entries(a) =~= view_entries(b));
}

// ---- object model -----------------------------------------------------------

/// Index of the first entry with key `k` at or after `start`, or -1.
pub open spec fn find_from(m: Entries, k: Seq<char>, start: int) -> int
    decreases m.len() - start,
{
    if start < 0 || start >= m.len() {
        -1
    } else if m[start].0 == k {
        start
    } else {
        find_from(m, k, start + 1)
    }
}

pub open spec fn find_key(m: Entries, k: Seq<char>) -> int {
    find_from(m, k, 0)
}

pub open spec fn obj_has(m: Entries, k: Seq<char>) -> bool {
    find_key(m, k) >= 0
}

pub open spec fn obj_get(m: Entries, k: Seq<char>) -> Option<Json> {
    let i = find_key(m, k);
    if i >= 0 {
        Some(m[i].1)
    } else {
        None
    }
}

/// Index of the first entry at or after `start` whose key orders after `k`.
pub open spec fn insert_pos(m: Entries, k: Seq<char>, start: int) -> int
    decreases m.len() - start,
{
    if start < 0 || start >= m.len() {
        m.len() as int
    } else if seq_lt(k, m[start].0) {
        start
    } else {
        insert_pos(m, k, start + 1)
    }
}

/// Map insertion: replace the value of an existing key in place, or add the
/// key at its place in key order.
pub open spec fn obj_insert(m: Entries, k: Seq<char>, v: Json) -> Entries {
    let i = find_key(m, k);
    if i >= 0 {
        m.update(i, (k, v))
    } else {
        m.insert(insert_pos(m, k, 0), (k, v))
    }
}

/// Insert `k` only when it is absent (`entry(k).or_insert(v)`).
pub open spec fn obj_insert_absent(m: Entries, k: Seq<char>, v: Json) -> Entries {
    if obj_has(m, k) {
        m
    } else {
        obj_insert(m, k, v)
    }
}

pub open spec fn obj_remove(m: Entries, k: Seq<char>) -> Entries {
    let i = find_key(m, k);
    if i >= 0 {
        m.remove(i)
    } else {
        m
    }
}

pub open spec fn obj_keys(m: Entries) -> Seq<Seq<char>> {
    m.map_values(|e: (Seq<char>, Json)| e.0)
}

pub proof fn lemma_find_from(m: Entries, k: Seq<char>, start: int)
    requires
        0 <= start,
    ensures
        find_from(m, k, start) == -1 || (start <= find_from(m, k, start) < m.len()
            && m[find_from(m, k, start)].0 == k),
        find_from(m, k, start) == -1 ==> forall|j: int| #![trigger m[j]] start <= j < m.len() ==> m[j].0 != k,
        find_from(m, k, start) >= 0 ==> forall|j: int| #![trigger m[j]]
            start <= j < find_from(m, k, start) ==> m[j].0 != k,
    decreases m.len() - start,
{
    if start < m.len() && m[start].0 != k {
        lemma_find_from(m, k, start + 1);
    }
}

pub proof fn lemma_insert_pos(m: Entries, k: Seq<char>, start: int)
    requires
        0 <= start <= m.len(),
    ensures
        start <= insert_pos(m, k, start) <= m.len(),
    decreases m.len() - start,
{
    if start < m.len() && !seq_lt(k, m[start].0) {
        lemma_insert_pos(m, k, start + 1);
    }
}

impl Json {
    pub open spec fn entries(self) -> Entries {
        match self {
            Json::Object(m) => m,
            _ => Seq::empty(),
        }
    }

    /// `value.get(k)`: the member `k` of an object; `None` for other values.
    pub open spec fn get(self, k: Seq<char>) -> Option<Json> {
        match self {
            Json::Object(m) => obj_get(m, k),
            _ => None,
        }
    }

    pub open spec fn has(self, k: Seq<char>) -> bool {
        match self {
            Json::Object(m) => obj_has(m, k),
            _ => false,
        }
    }

    pub open spec fn as_str(self) -> Option<Seq<char>> {
        match self {
            Json::Str(s) => Some(s),
            _ => None,
        }
    }

    /// `get(k)` followed by `as_str`.
    pub open spec fn get_str(self, k: Seq<char>) -> Option<Seq<char>> {
        match self.get(k) {
            Some(v) => v.as_str(),
            None => None,
        }
    }

    pub open spec fn is_true(self) -> bool {
        self == Json::Bool(true)
    }

    /// Insert into an object; other values are unchanged.
    pub open spec fn insert(self, k: Seq<char>, v: Json) -> Json {
        match self {
            Json::Object(m) => Json::Object(obj_insert(m, k, v)),
            other => other,
        }
    }

    pub open spec fn insert_absent(self, k: Seq<char>, v: Json) -> Json {
        match self {
            Json::Object(m) => Json::Object(obj_insert_absent(m, k, v)),
            other => other,
        }
    }

    /// Remove a member of an object; other values are unchanged.
    pub open spec fn remove(self, k: Seq<char>) -> Json {
        match self {
            Json::Object(m) => Json::Object(obj_remove(m, k)),
            other => other,
        }
    }

    pub open spec fn is_nonempty_object(self) -> bool {
        match self {
            Json::Object(m) => m.len() > 0,
            _ => false,
        }
    }
}

pub open spec fn jstr(s: Seq<char>) -> Json {
    Json::Str(s)
}

// ---- exec operations -----------------------------------------------------

/// Deep copy of a value.
#[verifier::loop_isolation(false)]
pub fn copy_value(v: &Value) -> (r: Value)
    ensures
        r@ == v@,
    decreases v,
{
    match v {
        Value::Null => Value::Null,
        Value::Bool(b) => Value::Bool(*b),
        Value::Int(i) => Value::Int(*i),
        Value::Float(s) => Value::Float(s.clone()),
        Value::Str(s) => Value::Str(s.clone()),
        Value::Array(a) => {
            let mut out: Vec<Value> = Vec::new();
            let mut i: usize = 0;
            while i < a.len()
                invariant
                    i <= a.len(),
                    out.len() == i,
                    forall|j: int| 0 <= j < i ==> out@[j]@ == a@[j]@,
                decreases a.len() - i,
            {
                proof {
                    assert(decreases_to!(*v => v->Array_0));
                    assert(decreases_to!(v->Array_0 => v->Array_0@));
                    assert(decreases_to!(v->Array_0@ => v->Array_0@[i as int]));
                }
                out.push(copy_value(&a[i]));
                i += 1;
            }
            proof {
                lemma_view_seq_ext(out@, a@);
            }
            Value::Array(out)
        }
        Value::Object(o) => {
            let mut out: Vec<(String, Value)> = Vec::new();
            let mut i: usize = 0;
            while i < o.len()
                invariant
                    i <= o.len(),
                    out.len() == i,
                    forall|j: int| 0 <= j < i ==> out@[j].0@ == o@[j].0@ && out@[j].1@ == o@[j].1@,
                decreases o.len() - i,
            {
                proof {
                    assert(decreases_to!(*v => v->Object_0));
                    assert(decreases_to!(v->Object_0 => v->Object_0@));
                    assert(decreases_to!(v->Object_0@ => v->Object_0@[i as int]));
                    assert(decreases_to!(v->Object_0@[i as int] => v->Object_0@[i as int].1));
                }
                let k = o[i].0.clone();
                let c = copy_value(&o[i].1);
                out.push((k, c));
                i += 1;
            }
            proof {
                lemma_view_entries_ext(out@, o@);
            }
            Value::Object(out)
        }
    }
}

pub fn copy_strings(v: &Vec<String>) -> (r: Vec<String>)
    ensures
        r@.len() == v@.len(),
        forall|i: int| 0 <= i < v@.len() ==> #[trigger] r@[i]@ == v@[i]@,
{
    let mut out: Vec<String> = Vec::new();
    let mut i: usize = 0;
    while i < v.len()
        invariant
            i <= v.len(),
            out@.len() == i,
            forall|j: int| 0 <= j < i ==> #[trigger] out@[j]@ == v@[j]@,
        decreases v.len() - i,
    {
        out.push(v[i].clone());
        i += 1;
    }
    out
}

/// Index of the entry with key `k`.
pub fn field_find(o: &Vec<(String, Value)>, k: &str) -> (r: Option<usize>)
    ensures
        match r {
            Some(i) => find_key(view_entries(o@), k@) == i as int && i < o@.len(),
            None => find_key(view_entries(o@), k@) == -1,
        },
{
    let ghost m = view_entries(o@);
    proof {
        lemma_view_entries(o@);
    }
    let mut i: usize = 0;
    while i < o.len()
        invariant
            i <= o@.len(),
            m == view_entries(o@),
            m.len() == o@.len(),
            forall|j: int| 0 <= j < o@.len() ==> #[trigger] m[j] == (o@[j].0@, o@[j].1@),
            find_from(m, k@, 0) == find_from(m, k@, i as int),
        decreases o.len() - i,
    {
        if str_eq(o[i].0.as_str(), k) {
            assert(m[i as int].0 == k@);
            assert(find_from(m, k@, i as int) == i as int);
            assert(find_from(m, k@, 0) == i as int);
            return Some(i);
        }
        i += 1;
    }
    None
}

pub fn field_get<'a>(o: &'a Vec<(String, Value)>, k: &str) -> (r: Option<&'a Value>)
    ensures
        opt_view(r) == obj_get(view_entries(o@), k@),
{
    proof {
        lemma_view_entries(o@);
    }
    match field_find(o, k) {
        Some(i) => Some(&o[i].1),
        None => None,
    }
}

pub fn field_contains(o: &Vec<(String, Value)>, k: &str) -> (r: bool)
    ensures
        r == obj_has(view_entries(o@), k@),
{
    field_find(o, k).is_some()
}

/// Position at which a new key `k` goes.
fn field_insert_pos(o: &Vec<(String, Value)>, k: &str) -> (r: usize)
    ensures
        r as int == insert_pos(view_entries(o@), k@, 0),
        r <= o@.len(),
{
    let ghost m = view_entries(o@);
    proof {
        lemma_view_entries(o@);
        lemma_insert_pos(m, k@, 0);
    }
    let mut i: usize = 0;
    while i < o.len()
        invariant
            i <= o@.len(),
            m == view_entries(o@),
            m.len() == o@.len(),
            forall|j: int| 0 <= j < o@.len() ==> #[trigger] m[j] == (o@[j].0@, o@[j].1@),
            insert_pos(m, k@, 0) == insert_pos(m, k@, i as int),
        decreases o.len() - i,
    {
        if str_lt(k, o[i].0.as_str()) {
            assert(seq_lt(k@, m[i as int].0));
            assert(insert_pos(m, k@, i as int) == i as int);
            return i;
        }
        i += 1;
    }
    i
}

/// Replace the value at index `i`, returning the old one.
pub fn field_replace_at(o: &mut Vec<(String, Value)>, i: usize, v: Value) -> (r: Value)
    requires
        i < old(o)@.len(),
    ensures
        final(o)@.len() == old(o)@.len(),
        view_entries(final(o)@) == view_entries(old(o)@).update(
            i as int,
            (view_entries(old(o)@)[i as int].0, v@),
        ),
        r@ == view_entries(old(o)@)[i as int].1,
        final(o)@[i as int].0@ == old(o)@[i as int].0@,
{
    let ghost before = o@;
    let (k, old_v) = o.remove(i);
    o.insert(i, (k, v));
    proof {
        lemma_view_entries(before);
        lemma_view_entries(o@);
        assert(view_entries(o@) =~= view_entries(before).update(
            i as int,
            (view_entries(before)[i as int].0, v@),
        ));
    }
    old_v
}

pub fn field_insert(o: &mut Vec<(String, Value)>, k: String, v: Value)
    ensures
        view_entries(final(o)@) == obj_insert(view_entries(old(o)@), k@, v@),
{
    let ghost before = o@;
    proof {
        lemma_view_entries(before);
    }
    match field_find(o, k.as_str()) {
        Some(i) => {
            o.remove(i);
            o.insert(i, (k, v));
            proof {
                lemma_view_entries(o@);
                assert(view_entries(o@) =~= view_entries(before).update(i as int, (k@, v@)));
            }
        },
        None => {
            let p = field_insert_pos(o, k.as_str());
            let ghost kv = k@;
            o.insert(p, (k, v));
            proof {
                lemma_view_entries(o@);
                assert(view_entries(o@) =~= view_entries(before).insert(p as int, (kv, v@)));
            }
        },
    }
}

pub fn field_insert_absent(o: &mut Vec<(String, Value)>, k: String, v: Value)
    ensures
        view_entries(final(o)@) == obj_insert_absent(view_entries(old(o)@), k@, v@),
{
    if !field_contains(o, k.as_str()) {
        field_insert(o, k, v);
    }
}

pub fn field_remove(o: &mut Vec<(String, Value)>, k: &str) -> (r: Option<Value>)
    ensures
        view_entries(final(o)@) == obj_remove(view_entries(old(o)@), k@),
        match r {
            Some(v) => obj_get(view_entries(old(o)@), k@) == Some(v@),
            None => obj_get(view_entries(old(o)@), k@) is None,
        },
{
    let ghost before = o@;
    proof {
        lemma_view_entries(before);
    }
    match field_find(o, k) {
        Some(i) => {
            let (_, v) = o.remove(i);
            proof {
                lemma_view_entries(o@);
                assert(view_entries(o@) =~= view_entries(before).remove(i as int));
            }
            Some(v)
        },
        None => None,
    }
}

impl Value {
    pub fn get(&self, k: &str) -> (r: Option<&Value>)
        ensures
            opt_view(r) == self@.get(k@),
    {
        match self {
            Value::Object(o) => field_get(o, k),
            _ => None,
        }
    }

    pub fn has(&self, k: &str) -> (r: bool)
        ensures
            r == self@.has(k@),
    {
        match self {
            Value::Object(o) => field_contains(o, k),
            _ => false,
        }
    }

    pub fn is_object(&self) -> (r: bool)
        ensures
            r == (self@ is Object),
    {
        match self {
            Value::Object(_) => true,
            _ => false,
        }
    }

    pub fn as_str(&self) -> (r: Option<&str>)
        ensures
            match r {
                Some(s) => self@.as_str() == Some(s@),
                None => self@.as_str() is None,
            },
    {
        match self {
            Value::Str(s) => Some(s.as_str()),
            _ => None,
        }
    }

    pub fn get_str(&self, k: &str) -> (r: Option<&str>)
        ensures
            match r {
                Some(s) => self@.get_str(k@) == Some(s@),
                None => self@.get_str(k@) is None,
            },
    {
        match self.get(k) {
            Some(v) => v.as_str(),
            None => None,
        }
    }

    pub fn is_true(&self) -> (r: bool)
        ensures
            r == self@.is_true(),
    {
        match self {
            Value::Bool(b) => *b,
            _ => false,
        }
    }

    pub fn string(s: &str) -> (r: Value)
        ensures
            r@ == Json::Str(s@),
    {
        Value::Str(s.to_owned())
    }

    pub fn empty_object() -> (r: Value)
        ensures
            r@ == Json::Object(Seq::empty()),
    {
        let v: Vec<(String, Value)> = Vec::new();
        proof {
            assert(view_entries(v@) == Seq::<(Seq<char>, Json)>::empty());
        }
        Value::Object(v)
    }

    /// Insert `k: v` into an object; other values are left as they are.
    pub fn insert(&mut self, k: &str, v: Value)
        ensures
            final(self)@ == old(self)@.insert(k@, v@),
    {
        match self {
            Value::Object(o) => field_insert(o, k.to_owned(), v),
            _ => {},
        }
    }

    /// Insert `k: v` into an object unless `k` is present.
    pub fn insert_absent(&mut self, k: &str, v: Value)
        ensures
            final(self)@ == old(self)@.insert_absent(k@, v@),
    {
        match self {
            Value::Object(o) => field_insert_absent(o, k.to_owned(), v),
            _ => {},
        }
    }

    /// Remove member `k` of an object, returning it.
    pub fn remove(&mut self, k: &str) -> (r: Option<Value>)
        ensures
            final(self)@ == old(self)@.remove(k@),
            opt_val(r) == old(self)@.get(k@),
    {
        match self {
            Value::Object(o) => field_remove(o, k),
            _ => None,
        }
    }
}


/// Inserting the value a key already has leaves the value as it is.
pub proof fn lemma_insert_same(j: Json, k: Seq<char>, v: Json)
    requires
        j.get(k) == Some(v),
    ensures
        j.insert(k, v) == j,
{
    let m = j->Object_0;
    lemma_find_from(m, k, 0);
    assert(m.update(find_key(m, k), (k, v)) =~= m);
}

/// Maps with the same keys in the same order find a key at the same place.
pub proof fn lemma_find_same_keys(a: Entries, b: Entries, k: Seq<char>, start: int)
    requires
        a.len() == b.len(),
        forall|j: int| #![trigger a[j]] 0 <= j < a.len() ==> a[j].0 == b[j].0,
    ensures
        find_from(a, k, start) == find_from(b, k, start),
    decreases a.len() - start,
{
    if 0 <= start < a.len() {
        assert(a[start].0 == b[start].0);
        lemma_find_same_keys(a, b, k, start + 1);
    }
}

/// Take the value of key `k` out of an object's entries, leaving `null` in its
/// place; the index returned is where the new value goes back.
pub fn field_take(o: &mut Vec<(String, Value)>, k: &str) -> (r: Option<(usize, Value)>)
    ensures
        match r {
            Some((i, c)) => {
                &&& obj_get(view_entries(old(o)@), k@) == Some(c@)
                &&& i < view_entries(final(o)@).len()
                &&& i < view_entries(old(o)@).len()
                &&& view_entries(old(o)@)[i as int].0 == k@
                &&& find_key(view_entries(old(o)@), k@) == i as int
                &&& view_entries(final(o)@)[i as int].0 == k@
                &&& view_entries(final(o)@) == view_entries(old(o)@).update(i as int, (k@, Json::Null))
                &&& forall|x: Json| #[trigger] obj_insert(view_entries(old(o)@), k@, x)
                    == view_entries(final(o)@).update(i as int, (k@, x))
                &&& obj_remove(view_entries(final(o)@), k@) == obj_remove(view_entries(old(o)@), k@)
                &&& forall|x: Json| #[trigger] obj_insert(view_entries(final(o)@), k@, x)
                    == obj_insert(view_entries(old(o)@), k@, x)
            },
            None => {
                &&& obj_get(view_entries(old(o)@), k@) is None
                &&& final(o)@ == old(o)@
            },
        },
{
    let ghost m = view_entries(o@);
    proof {
        lemma_view_entries(o@);
    }
    match field_find(o, k) {
        Some(i) => {
            proof {
                lemma_find_from(m, k@, 0);
            }
            let c = field_replace_at(o, i, Value::Null);
            proof {
                let t = view_entries(o@);
                assert forall|x: Json| #[trigger] obj_insert(m, k@, x) == t.update(i as int, (k@, x)) by {
                    assert(obj_insert(m, k@, x) =~= t.update(i as int, (k@, x)));
                }
                lemma_find_same_keys(t, m, k@, 0);
                assert(obj_remove(t, k@) =~= obj_remove(m, k@));
                assert forall|x: Json| #[trigger] obj_insert(t, k@, x) == obj_insert(m, k@, x) by {
                    assert(obj_insert(t, k@, x) =~= obj_insert(m, k@, x));
                }
            }
            Some((i, c))
        },
        None => None,
    }
}

impl Value {
    /// Take member `k` out of an object, leaving `null` in its place; the
    /// index returned is where [`Value::put_at`] puts the new value back.
    pub fn take(&mut self, k: &str) -> (r: Option<(usize, Value)>)
        ensures
            match r {
                Some((i, c)) => {
                    &&& old(self)@.get(k@) == Some(c@)
                    &&& final(self)@ is Object
                    &&& i < final(self)@->Object_0.len()
                    &&& final(self)@->Object_0[i as int].0 == k@
                    &&& forall|x: Json| #[trigger] old(self)@.insert(k@, x) == Json::Object(
                        final(self)@->Object_0.update(i as int, (k@, x)),
                    )
                    &&& final(self)@.remove(k@) == old(self)@.remove(k@)
                    &&& forall|x: Json| #[trigger] final(self)@.insert(k@, x) == old(self)@.insert(k@, x)
                },
                None => {
                    &&& old(self)@.get(k@) is None
                    &&& final(self)@ == old(self)@
                },
            },
    {
        match self {
            Value::Object(o) => {
                let ghost m = view_entries(o@);
                let r = field_take(o, k);
                proof {
                    match r {
                        Some((i, _)) => {
                            let t = view_entries(o@);
                            assert forall|x: Json| #[trigger] Json::Object(m).insert(k@, x)
                                == Json::Object(t.update(i as int, (k@, x))) by {
                                assert(obj_insert(m, k@, x) == t.update(i as int, (k@, x)));
                            }
                            assert forall|j: int| #![trigger t[j]] 0 <= j < t.len() implies t[j].0 == m[j].0 by {
                                if j != i {
                                    assert(t[j] == m[j]);
                                }
                            }
                            lemma_find_same_keys(t, m, k@, 0);
                            assert forall|x: Json| #[trigger] Json::Object(t).insert(k@, x)
                                == Json::Object(m).insert(k@, x) by {
                                assert(obj_insert(t, k@, x) =~= obj_insert(m, k@, x));
                            }
                        },
                        None => {},
                    }
                }
                r
            },
            _ => None,
        }
    }

    /// Put `c` at index `i` of an object, keeping that entry's key.
    pub fn put_at(&mut self, i: usize, c: Value)
        requires
            old(self)@ is Object,
            i < old(self)@->Object_0.len(),
        ensures
            final(self)@ == Json::Object(
                old(self)@->Object_0.update(i as int, (old(self)@->Object_0[i as int].0, c@)),
            ),
    {
        match self {
            Value::Object(o) => {
                proof {
                    lemma_view_entries(o@);
                }
                field_replace_at(o, i, c);
            },
            _ => {},
        }
    }
}

/// The entries of the object that member `k` holds; none where `k` is absent
/// or holds another kind of value.
pub open spec fn member_entries(j: Json, k: Seq<char>) -> Entries {
    match j.get(k) {
        Some(Json::Object(m)) => m,
        _ => Seq::empty(),
    }
}

/// Member `k` is absent or holds an object.
pub open spec fn object_or_absent(j: Json, k: Seq<char>) -> bool {
    match j.get(k) {
        None => true,
        Some(Json::Object(_)) => true,
        _ => false,
    }
}

/// Set member `k` of an object to the object with entries `m`, where it is
/// absent or an object; `entry(k).or_insert({})` followed by an update.
pub open spec fn put_object(j: Json, k: Seq<char>, m: Entries) -> Json {
    if object_or_absent(j, k) {
        j.insert(k, Json::Object(m))
    } else {
        j
    }
}

/// Take the entries of the object held by member `k` (none where `k` is
/// absent) for an update that [`Value::insert`] puts back; `None` where `k`
/// holds another kind of value.
pub fn take_object(schema: &mut Value, k: &str) -> (r: Option<Vec<(String, Value)>>)
    ensures
        match r {
            Some(o) => {
                &&& view_entries(o@) == member_entries(old(schema)@, k@)
                &&& object_or_absent(old(schema)@, k@)
                &&& forall|x: Json| #[trigger] final(schema)@.insert(k@, x) == old(schema)@.insert(k@, x)
            },
            None => {
                &&& !object_or_absent(old(schema)@, k@)
                &&& final(schema)@ == old(schema)@
            },
        },
{
    let ghost j0 = schema@;
    match schema.take(k) {
        Some((i, Value::Object(o))) => Some(o),
        Some((i, other)) => {
            let ghost ov = other@;
            schema.put_at(i, other);
            proof {
                assert(j0.insert(k@, ov) == schema@);
                lemma_insert_same(j0, k@, ov);
            }
            None
        },
        None => {
            let o: Vec<(String, Value)> = Vec::new();
            assert(view_entries(o@) =~= Seq::<(Seq<char>, Json)>::empty());
            Some(o)
        },
    }
}

// ---- laws of the object model ------------------------------------------------------------

/// Keys strictly increasing: the entries of a map that sorts its keys.
pub open spec fn keys_sorted(m: Entries) -> bool {
    forall|i: int, j: int| 0 <= i < j < m.len() ==> seq_lt(#[trigger] m[i].0, #[trigger] m[j].0)
}

proof fn lemma_find_at(m: Entries, k: Seq<char>, start: int, i: int)
    requires
        0 <= start <= i < m.len(),
        m[i].0 == k,
        forall|j: int| start <= j < i ==> #[trigger] m[j].0 != k,
    ensures
        find_from(m, k, start) == i,
    decreases i - start,
{
    if start < i {
        lemma_find_at(m, k, start + 1, i);
    }
}

proof fn lemma_find_none(m: Entries, k: Seq<char>)
    requires
        forall|j: int| 0 <= j < m.len() ==> #[trigger] m[j].0 != k,
    ensures
        find_key(m, k) == -1,
{
    lemma_find_from(m, k, 0);
}

proof fn lemma_insert_pos_bounds(m: Entries, k: Seq<char>, start: int)
    requires
        0 <= start <= m.len(),
    ensures
        forall|j: int| start <= j < insert_pos(m, k, start) ==> !seq_lt(k, #[trigger] m[j].0),
        insert_pos(m, k, start) < m.len() ==> seq_lt(k, m[insert_pos(m, k, start)].0),
    decreases m.len() - start,
{
    lemma_insert_pos(m, k, start);
    if start < m.len() && !seq_lt(k, m[start].0) {
        lemma_insert_pos_bounds(m, k, start + 1);
    }
}

/// Reading a key after writing it gives the value written.
pub proof fn lemma_insert_get(m: Entries, k: Seq<char>, v: Json)
    ensures
        obj_get(obj_insert(m, k, v), k) == Some(v),
{
    lemma_find_from(m, k, 0);
    let i = find_key(m, k);
    if i >= 0 {
        let m2 = m.update(i, (k, v));
        assert forall|j: int| 0 <= j < i implies #[trigger] m2[j].0 != k by {
            assert(m2[j] == m[j]);
        }
        lemma_find_at(m2, k, 0, i);
    } else {
        lemma_insert_pos(m, k, 0);
        let p = insert_pos(m, k, 0);
        let m2 = m.insert(p, (k, v));
        assert forall|j: int| 0 <= j < p implies #[trigger] m2[j].0 != k by {
            assert(m2[j] == m[j]);
        }
        lemma_find_at(m2, k, 0, p);
    }
}

/// Writing a key leaves every other key as it was.
pub proof fn lemma_insert_get_other(m: Entries, k: Seq<char>, v: Json, k2: Seq<char>)
    requires
        k2 != k,
    ensures
        obj_get(obj_insert(m, k, v), k2) == obj_get(m, k2),
{
    lemma_find_from(m, k, 0);
    lemma_find_from(m, k2, 0);
    let i = find_key(m, k);
    let q = find_key(m, k2);
    if i >= 0 {
        let m2 = m.update(i, (k, v));
        lemma_find_same_keys(m2, m, k2, 0);
    } else {
        lemma_insert_pos(m, k, 0);
        let p = insert_pos(m, k, 0);
        let m2 = m.insert(p, (k, v));
        if q >= 0 {
            if q < p {
                assert forall|j: int| 0 <= j < q implies #[trigger] m2[j].0 != k2 by {
                    assert(m2[j] == m[j]);
                }
                assert(m2[q] == m[q]);
                lemma_find_at(m2, k2, 0, q);
            } else {
                assert forall|j: int| 0 <= j < q + 1 implies #[trigger] m2[j].0 != k2 by {
                    if j < p {
                        assert(m2[j] == m[j]);
                    } else if j > p {
                        assert(m2[j] == m[j - 1]);
                    }
                }
                assert(m2[q + 1] == m[q]);
                lemma_find_at(m2, k2, 0, q + 1);
            }
        } else {
            assert forall|j: int| 0 <= j < m2.len() implies #[trigger] m2[j].0 != k2 by {
                if j < p {
                    assert(m2[j] == m[j]);
                } else if j > p {
                    assert(m2[j] == m[j - 1]);
                }
            }
            lemma_find_none(m2, k2);
        }
    }
}

/// Writing into a map keeps its keys strictly increasing.
pub proof fn lemma_insert_sorted(m: Entries, k: Seq<char>, v: Json)
    requires
        keys_sorted(m),
    ensures
        keys_sorted(obj_insert(m, k, v)),
{
    lemma_find_from(m, k, 0);
    let i = find_key(m, k);
    if i >= 0 {
        let m2 = m.update(i, (k, v));
        assert forall|a: int, b: int| 0 <= a < b < m2.len() implies seq_lt(#[trigger] m2[a].0, #[trigger] m2[b].0) by {
            assert(m2[a].0 == m[a].0);
            assert(m2[b].0 == m[b].0);
        }
    } else {
        lemma_insert_pos(m, k, 0);
        lemma_insert_pos_bounds(m, k, 0);
        let p = insert_pos(m, k, 0);
        let m2 = m.insert(p, (k, v));
        assert forall|j: int| 0 <= j < p implies seq_lt(#[trigger] m[j].0, k) by {
            assert(!seq_lt(k, m[j].0));
            assert(m[j].0 != k);
            crate::strings::lemma_seq_lt_total(m[j].0, k);
        }
        assert forall|j: int| p <= j < m.len() implies seq_lt(k, #[trigger] m[j].0) by {
            if j > p {
                assert(seq_lt(m[p].0, m[j].0));
                crate::strings::lemma_seq_lt_transitive(k, m[p].0, m[j].0);
            }
        }
        assert forall|a: int, b: int| 0 <= a < b < m2.len() implies seq_lt(#[trigger] m2[a].0, #[trigger] m2[b].0) by {
            if b < p {
                assert(m2[a] == m[a] && m2[b] == m[b]);
            } else if b == p {
                assert(m2[a] == m[a]);
            } else if a < p {
                assert(m2[a] == m[a] && m2[b] == m[b - 1]);
                crate::strings::lemma_seq_lt_transitive(m[a].0, k, m[b - 1].0);
            } else if a == p {
                assert(m2[b] == m[b - 1]);
            } else {
                assert(m2[a] == m[a - 1] && m2[b] == m[b - 1]);
            }
        }
    }
}

/// In a map, a removed key is gone.
pub proof fn lemma_remove_get(m: Entries, k: Seq<char>)
    requires
        keys_sorted(m),
    ensures
        obj_get(obj_remove(m, k), k) is None,
{
    lemma_find_from(m, k, 0);
    let i = find_key(m, k);
    if i >= 0 {
        let m2 = m.remove(i);
        assert forall|j: int| 0 <= j < m2.len() implies #[trigger] m2[j].0 != k by {
            if j < i {
                assert(m2[j] == m[j]);
                assert(seq_lt(m[j].0, m[i].0));
                crate::strings::lemma_seq_lt_irreflexive(k);
            } else {
                assert(m2[j] == m[j + 1]);
                assert(seq_lt(m[i].0, m[j + 1].0));
                crate::strings::lemma_seq_lt_irreflexive(k);
            }
        }
        lemma_find_none(m2, k);
    }
}

/// Removing a key leaves every other key as it was.
pub proof fn lemma_remove_get_other(m: Entries, k: Seq<char>, k2: Seq<char>)
    requires
        k2 != k,
    ensures
        obj_get(obj_remove(m, k), k2) == obj_get(m, k2),
{
    lemma_find_from(m, k, 0);
    lemma_find_from(m, k2, 0);
    let i = find_key(m, k);
    let q = find_key(m, k2);
    if i >= 0 {
        let m2 = m.remove(i);
        if q >= 0 {
            if q < i {
                assert forall|j: int| 0 <= j < q implies #[trigger] m2[j].0 != k2 by {
                    assert(m2[j] == m[j]);
                }
                assert(m2[q] == m[q]);
                lemma_find_at(m2, k2, 0, q);
            } else {
                assert forall|j: int| 0 <= j < q - 1 implies #[trigger] m2[j].0 != k2 by {
                    if j < i {
                        assert(m2[j] == m[j]);
                    } else {
                        assert(m2[j] == m[j + 1]);
                    }
                }
                assert(m2[q - 1] == m[q]);
                lemma_find_at(m2, k2, 0, q - 1);
            }
        } else {
            assert forall|j: int| 0 <= j < m2.len() implies #[trigger] m2[j].0 != k2 by {
                if j < i {
                    assert(m2[j] == m[j]);
                } else {
                    assert(m2[j] == m[j + 1]);
                }
            }
            lemma_find_none(m2, k2);
        }
    }
}

} // verus!
