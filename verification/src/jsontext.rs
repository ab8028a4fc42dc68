//! Compact JSON text of a value, and the canonical form with sorted keys.
use vstd::prelude::*;
use crate::json::{
    insert_pos, lemma_insert_pos, lemma_view_entries, lemma_view_seq, view_entries, view_seq,
    Entries, Json, Value,
};
use crate::strings::{chars_lt, chars_of, dec_i128, dec_int, push_str, seq_lt};
use crate::trusted::{json_quote, json_string_literal, push_char};

verus! {

/// Compact JSON text: no whitespace, object members in their stored order.
pub open spec fn json_text(j: Json) -> Seq<char>
    decreases j,
{
    match j {
        Json::Null => "null"@,
        Json::Bool(b) => if b { "true"@ } else { "false"@ },
        Json::Int(i) => dec_int(i),
        Json::Float(s) => s,
        Json::Str(s) => json_string_literal(s),
        Json::Array(a) => seq!['['] + elems_text(a) + seq![']'],
        Json::Object(m) => seq!['{'] + members_text(m) + seq!['}'],
    }
}

pub open spec fn elems_text(a: Seq<Json>) -> Seq<char>
    decreases a,
{
    if a.len() == 0 {
        Seq::empty()
    } else if a.len() == 1 {
        json_text(a[0])
    } else {
        elems_text(a.drop_last()) + seq![','] + json_text(a.last())
    }
}

pub open spec fn members_text(m: Entries) -> Seq<char>
    decreases m,
{
    if m.len() == 0 {
        Seq::empty()
    } else {
        let e = json_string_literal(m.last().0) + seq![':'] + json_text(m.last().1);
        if m.len() == 1 {
            e
        } else {
            members_text(m.drop_last()) + seq![','] + e
        }
    }
}

/// Entries reordered by key (insertion sort, keeping the first of equal keys
/// first).
pub open spec fn sort_entries(m: Entries) -> Entries
    decreases m.len(),
{
    if m.len() == 0 {
        m
    } else {
        let s = sort_entries(m.drop_last());
        s.insert(insert_pos(s, m.last().0, 0), m.last())
    }
}

/// The value with the members of every object ordered by key.
pub open spec fn normalize(j: Json) -> Json
    decreases j,
{
    match j {
        Json::Array(a) => Json::Array(normalize_seq(a)),
        Json::Object(m) => Json::Object(sort_entries(normalize_entries(m))),
        other => other,
    }
}

pub open spec fn normalize_seq(a: Seq<Json>) -> Seq<Json>
    decreases a,
{
    if a.len() == 0 {
        a
    } else {
        normalize_seq(a.drop_last()).push(normalize(a.last()))
    }
}

pub open spec fn normalize_entries(m: Entries) -> Entries
    decreases m,
{
    if m.len() == 0 {
        m
    } else {
        normalize_entries(m.drop_last()).push((m.last().0, normalize(m.last().1)))
    }
}

/// Canonical text: compact, with object keys in sorted order.
pub open spec fn canonical_text(j: Json) -> Seq<char> {
    json_text(normalize(j))
}

/// Append the compact text of `v`.
#[verifier::loop_isolation(false)]
pub fn write_json(v: &Value, out: &mut String)
    ensures
        final(out)@ == old(out)@ + json_text(v@),
    decreases v,
{
    let ghost start = out@;
    match v {
        Value::Null => push_str(out, "null"),
        Value::Bool(b) => if *b { push_str(out, "true") } else { push_str(out, "false") },
        Value::Int(i) => {
            let t = dec_i128(*i);
            push_str(out, t.as_str());
        },
        Value::Float(s) => push_str(out, s.as_str()),
        Value::Str(s) => {
            let t = json_quote(s.as_str());
            push_str(out, t.as_str());
        },
        Value::Array(a) => {
            push_char(out, '[');
            let ghost s = view_seq(a@);
            proof { lemma_view_seq(a@); }
            let mut i: usize = 0;
            while i < a.len()
                invariant
                    i <= a@.len(),
                    s == view_seq(a@),
                    s.len() == a@.len(),
                    out@ == start + seq!['['] + elems_text(s.take(i as int)),
                decreases a.len() - i,
            {
                if i > 0 {
                    push_char(out, ',');
                }
                proof {
                    assert(decreases_to!(*v => v->Array_0));
                    assert(decreases_to!(v->Array_0 => v->Array_0@));
                    assert(decreases_to!(v->Array_0@ => v->Array_0@[i as int]));
                }
                write_json(&a[i], out);
                assert(s.take(i + 1).drop_last() =~= s.take(i as int));
                assert(s.take(i + 1).last() == a@[i as int]@);
                i += 1;
                assert(out@ =~= start + seq!['['] + elems_text(s.take(i as int)));
            }
            assert(s.take(a@.len() as int) =~= s);
            push_char(out, ']');
        },
        Value::Object(o) => {
            push_char(out, '{');
            let ghost m = view_entries(o@);
            proof { lemma_view_entries(o@); }
            let mut i: usize = 0;
            while i < o.len()
                invariant
                    i <= o@.len(),
                    m == view_entries(o@),
                    m.len() == o@.len(),
                    out@ == start + seq!['{'] + members_text(m.take(i as int)),
                decreases o.len() - i,
            {
                if i > 0 {
                    push_char(out, ',');
                }
                let k = json_quote(o[i].0.as_str());
                push_str(out, k.as_str());
                push_char(out, ':');
                proof {
                    assert(decreases_to!(*v => v->Object_0));
                    assert(decreases_to!(v->Object_0 => v->Object_0@));
                    assert(decreases_to!(v->Object_0@ => v->Object_0@[i as int]));
                    assert(decreases_to!(v->Object_0@[i as int] => v->Object_0@[i as int].1));
                }
                write_json(&o[i].1, out);
                assert(m.take(i + 1).drop_last() =~= m.take(i as int));
                assert(m.take(i + 1).last() == (o@[i as int].0@, o@[i as int].1@));
                i += 1;
                assert(out@ =~= start + seq!['{'] + members_text(m.take(i as int)));
            }
            assert(m.take(o@.len() as int) =~= m);
            push_char(out, '}');
        },
    }
}

/// Compact JSON text of a value.
pub fn to_json_text(v: &Value) -> (r: String)
    ensures
        r@ == json_text(v@),
{
    let mut s = String::new();
    write_json(v, &mut s);
    assert(s@ =~= json_text(v@));
    s
}

/// Index at which an entry keyed `k` goes among already-sorted entries.
fn sorted_pos(o: &Vec<(String, Value)>, k: &str) -> (r: usize)
    ensures
        r as int == insert_pos(view_entries(o@), k@, 0),
        r <= o@.len(),
{
    let ghost m = view_entries(o@);
    proof {
        lemma_view_entries(o@);
        lemma_insert_pos(m, k@, 0);
    }
    let kc = chars_of(k);
    let mut i: usize = 0;
    while i < o.len()
        invariant
            i <= o@.len(),
            kc@ == k@,
            m == view_entries(o@),
            m.len() == o@.len(),
            forall|j: int| 0 <= j < o@.len() ==> #[trigger] m[j] == (o@[j].0@, o@[j].1@),
            insert_pos(m, k@, 0) == insert_pos(m, k@, i as int),
        decreases o.len() - i,
    {
        let other = chars_of(o[i].0.as_str());
        if chars_lt(kc.as_slice(), other.as_slice()) {
            assert(insert_pos(m, k@, i as int) == i as int);
            return i;
        }
        i += 1;
    }
    i
}

/// A copy of `v` with every object's members ordered by key.
#[verifier::loop_isolation(false)]
pub fn normalized(v: &Value) -> (r: Value)
    ensures
        r@ == normalize(v@),
    decreases v,
{
    match v {
        Value::Array(a) => {
            let mut out: Vec<Value> = Vec::new();
            let ghost s = view_seq(a@);
            proof { lemma_view_seq(a@); }
            let mut i: usize = 0;
            while i < a.len()
                invariant
                    i <= a@.len(),
                    s == view_seq(a@),
                    s.len() == a@.len(),
                    view_seq(out@) == normalize_seq(s.take(i as int)),
                decreases a.len() - i,
            {
                proof {
                    assert(decreases_to!(*v => v->Array_0));
                    assert(decreases_to!(v->Array_0 => v->Array_0@));
                    assert(decreases_to!(v->Array_0@ => v->Array_0@[i as int]));
                }
                let c = normalized(&a[i]);
                let ghost before = out@;
                out.push(c);
                proof {
                    assert(out@.drop_last() =~= before);
                    assert(view_seq(out@) == view_seq(before).push(c@));
                    assert(s.take(i + 1).drop_last() =~= s.take(i as int));
                }
                i += 1;
            }
            assert(s.take(a@.len() as int) =~= s);
            Value::Array(out)
        },
        Value::Object(o) => {
            // normalize each member, then order by key
            let mut out: Vec<(String, Value)> = Vec::new();
            let ghost m = view_entries(o@);
            proof { lemma_view_entries(o@); }
            let mut i: usize = 0;
            assert(view_entries(out@) == Seq::<(Seq<char>, Json)>::empty());
            while i < o.len()
                invariant
                    i <= o@.len(),
                    m == view_entries(o@),
                    m.len() == o@.len(),
                    view_entries(out@) == sort_entries(normalize_entries(m.take(i as int))),
                decreases o.len() - i,
            {
                proof {
                    assert(decreases_to!(*v => v->Object_0));
                    assert(decreases_to!(v->Object_0 => v->Object_0@));
                    assert(decreases_to!(v->Object_0@ => v->Object_0@[i as int]));
                    assert(decreases_to!(v->Object_0@[i as int] => v->Object_0@[i as int].1));
                }
                let c = normalized(&o[i].1);
                let k = o[i].0.clone();
                let p = sorted_pos(&out, k.as_str());
                let ghost before = out@;
                let ghost e = (k@, c@);
                out.insert(p, (k, c));
                proof {
                    lemma_view_entries(before);
                    lemma_view_entries(out@);
                    assert(view_entries(out@) =~= view_entries(before).insert(p as int, e));
                    let t = m.take(i + 1);
                    assert(t.drop_last() =~= m.take(i as int));
                    assert(normalize_entries(t) == normalize_entries(t.drop_last()).push((t.last().0, normalize(t.last().1))));
                    assert(normalize_entries(t).drop_last() =~= normalize_entries(m.take(i as int)));
                    assert(normalize_entries(t).last() == e);
                }
                i += 1;
            }
            assert(m.take(o@.len() as int) =~= m);
            Value::Object(out)
        },
        Value::Null => Value::Null,
        Value::Bool(b) => Value::Bool(*b),
        Value::Int(n) => Value::Int(*n),
        Value::Float(s) => Value::Float(s.clone()),
        Value::Str(s) => Value::Str(s.clone()),
    }
}

/// Canonical JSON text: sorted object keys and no insignificant whitespace.
pub fn canonical_json(v: &Value) -> (r: String)
    ensures
        r@ == canonical_text(v@),
{
    let n = normalized(v);
    to_json_text(&n)
}

} // verus!
