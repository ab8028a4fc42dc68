//! Devicetree schema processing: the binding-schema fixups, property-type
//! extraction, processed schema sets, diagnostics and their cache, and DTS
//! examples, each with its specification.
pub mod cache;
pub mod diagnostic;
pub mod example;
pub mod fixups;
pub mod json;
pub mod jsontext;
pub mod lib_helpers;
pub mod process;
pub mod schema;
pub mod strings;
pub mod subschema;
pub mod trusted;
pub mod types;
pub mod validator;

use vstd::prelude::*;
use crate::strings::{split_char, strings_view, trim_start, seq_starts_with};

verus! {

/// Synthetic schema ID for "is this compatible documented anywhere?".
pub const GENERATED_COMPATIBLES_SCHEMA: &'static str = "generated-compatibles";

/// Index of the first `c` in `s`, or -1.
pub open spec fn char_pos(s: Seq<char>, c: char, start: int) -> int
    decreases s.len() - start,
{
    if start < 0 || start >= s.len() {
        -1
    } else if s[start] == c {
        start
    } else {
        char_pos(s, c, start + 1)
    }
}

/// The text between the first two `q` of `line`.
pub open spec fn quoted(line: Seq<char>, q: char) -> Option<Seq<char>> {
    let s = char_pos(line, q, 0);
    if s < 0 {
        None
    } else {
        let rest = line.skip(s + 1);
        let e = char_pos(rest, q, 0);
        if e < 0 {
            None
        } else {
            Some(rest.take(e))
        }
    }
}

/// The version a `__version__ = '...'` line assigns.
pub open spec fn version_in_line(line: Seq<char>) -> Option<Seq<char>> {
    let l = trim_start(line);
    if seq_starts_with(l, "__version__"@) && l.contains('=') {
        match quoted(l, '\'') {
            Some(v) => Some(v),
            None => quoted(l, '"'),
        }
    } else {
        None
    }
}

/// The lines of a text as `str::lines` gives them: split at `\n`, without
/// an empty last piece, each without a trailing `\r`.
pub open spec fn text_lines(text: Seq<char>) -> Seq<Seq<char>> {
    let pieces = split_char(text, '\n');
    let pieces = if pieces.last().len() == 0 {
        pieces.drop_last()
    } else {
        pieces
    };
    pieces.map_values(|l: Seq<char>| if l.len() > 0 && l.last() == '\r' { l.drop_last() } else { l })
}

/// The first version assigned in `lines[i..]`.
pub open spec fn version_in_lines(lines: Seq<Seq<char>>, i: int) -> Option<Seq<char>>
    decreases lines.len() - i,
{
    if i < 0 || i >= lines.len() {
        None
    } else {
        match version_in_line(lines[i]) {
            Some(v) => Some(v),
            None => version_in_lines(lines, i + 1),
        }
    }
}

fn char_pos_exec(s: &Vec<char>, c: char, start: usize) -> (r: Option<usize>)
    requires
        start <= s@.len(),
    ensures
        match r {
            Some(p) => char_pos(s@, c, start as int) == p as int && start <= p < s@.len(),
            None => char_pos(s@, c, start as int) == -1,
        },
{
    let mut i = start;
    while i < s.len()
        invariant
            start <= i <= s@.len(),
            char_pos(s@, c, start as int) == char_pos(s@, c, i as int),
        decreases s.len() - i,
    {
        if s[i] == c {
            return Some(i);
        }
        i += 1;
    }
    None
}

fn quoted_exec(l: &Vec<char>, q: char) -> (r: Option<String>)
    ensures
        crate::diagnostic::opt_string(r) == quoted(l@, q),
{
    let n = l.len();
    match char_pos_exec(l, q, 0) {
        None => None,
        Some(s) => match char_pos_exec(l, q, s + 1) {
            None => {
                proof {
                    lemma_char_pos_shift(l@, q, s + 1);
                }
                None
            },
            Some(e) => {
                proof {
                    lemma_char_pos_shift(l@, q, s + 1);
                }
                let mut out: Vec<char> = Vec::new();
                let mut k = s + 1;
                while k < e
                    invariant
                        s + 1 <= k <= e < l@.len(),
                        out@ == l@.subrange(s + 1, k as int),
                    decreases e - k,
                {
                    out.push(l[k]);
                    k += 1;
                    assert(out@ =~= l@.subrange(s + 1, k as int));
                }
                assert(out@ =~= l@.skip(s + 1).take(e - s - 1));
                Some(crate::strings::string_of(out.as_slice()))
            },
        },
    }
}

/// Scanning `s.skip(k)` finds what scanning `s` from `k` finds, shifted.
proof fn lemma_char_pos_shift(s: Seq<char>, c: char, k: int)
    requires
        0 <= k <= s.len(),
    ensures
        char_pos(s.skip(k), c, 0) == if char_pos(s, c, k) < 0 { -1 } else { char_pos(s, c, k) - k },
{
    lemma_char_pos_shift_from(s, c, k, k);
}

proof fn lemma_char_pos_shift_from(s: Seq<char>, c: char, k: int, i: int)
    requires
        0 <= k <= i <= s.len(),
    ensures
        char_pos(s.skip(k), c, i - k) == if char_pos(s, c, i) < 0 { -1 } else { char_pos(s, c, i) - k },
    decreases s.len() - i,
{
    if i < s.len() {
        assert(s.skip(k)[i - k] == s[i]);
        lemma_char_pos_shift_from(s, c, k, i + 1);
    }
}

fn version_in_line_exec(line: &str) -> (r: Option<String>)
    ensures
        crate::diagnostic::opt_string(r) == version_in_line(line@),
{
    let v = crate::strings::chars_of(line);
    let from = crate::strings::leading_ws(v.as_slice(), 0, v.len());
    let mut l: Vec<char> = Vec::new();
    let mut k = from;
    while k < v.len()
        invariant
            from <= k <= v@.len(),
            l@ == v@.subrange(from as int, k as int),
        decreases v.len() - k,
    {
        l.push(v[k]);
        k += 1;
        assert(l@ =~= v@.subrange(from as int, k as int));
    }
    assert(v@.subrange(0, v@.len() as int) =~= v@);
    assert(l@ =~= v@.subrange(from as int, v@.len() as int));
    let prefix = crate::strings::chars_of("__version__");
    if !crate::strings::chars_starts_with(l.as_slice(), prefix.as_slice()) {
        return None;
    }
    match char_pos_exec(&l, '=', 0) {
        None => {
            proof {
                lemma_char_pos_contains(l@, '=');
            }
            None
        },
        Some(_) => {
            proof {
                lemma_char_pos_contains(l@, '=');
            }
            match quoted_exec(&l, '\'') {
                Some(q) => Some(q),
                None => quoted_exec(&l, '"'),
            }
        },
    }
}

proof fn lemma_char_pos_contains(s: Seq<char>, c: char)
    ensures
        char_pos(s, c, 0) >= 0 <==> s.contains(c),
{
    lemma_char_pos_from(s, c, 0);
}

proof fn lemma_char_pos_from(s: Seq<char>, c: char, i: int)
    requires
        0 <= i <= s.len(),
    ensures
        char_pos(s, c, i) >= 0 <==> exists|j: int| i <= j < s.len() && s[j] == c,
        char_pos(s, c, i) >= 0 ==> s[char_pos(s, c, i)] == c,
    decreases s.len() - i,
{
    if i < s.len() {
        lemma_char_pos_from(s, c, i + 1);
        if s[i] != c {
            assert forall|j: int| i <= j < s.len() && s[j] == c implies i + 1 <= j by {}
        }
    }
}

/// The version that a `version.py` text assigns to `__version__`: the quoted
/// text of the first line of the form `__version__ = '...'` (or `"..."`).
pub fn version_from_text(text: &str) -> (r: Option<String>)
    ensures
        crate::diagnostic::opt_string(r) == version_in_lines(text_lines(text@), 0),
{
    let pieces = crate::strings::split_on(text, '\n');
    let ghost pv = strings_view(pieces@);
    let ghost lines = text_lines(text@);
    proof {
        crate::types::lemma_split_len(text@, '\n');
    }
    let n = pieces.len();
    let last_empty = pieces[n - 1].as_str().is_empty();
    let count = if last_empty { n - 1 } else { n };
    assert(lines.len() == count);
    let mut i: usize = 0;
    while i < count
        invariant
            i <= count <= pieces@.len(),
            pv == strings_view(pieces@),
            lines == text_lines(text@),
            lines.len() == count,
            forall|j: int| 0 <= j < count ==> #[trigger] lines[j] == (if pv[j].len() > 0 && pv[j].last() == '\r' { pv[j].drop_last() } else { pv[j] }),
            version_in_lines(lines, 0) == version_in_lines(lines, i as int),
        decreases count - i,
    {
        let v = crate::strings::chars_of(pieces[i].as_str());
        let trimmed = if v.len() > 0 && v[v.len() - 1] == '\r' {
            let mut t = v.clone();
            t.pop();
            crate::strings::string_of(t.as_slice())
        } else {
            pieces[i].clone()
        };
        assert(trimmed@ == lines[i as int]);
        match version_in_line_exec(trimmed.as_str()) {
            Some(found) => {
                return Some(found);
            },
            None => {},
        }
        i += 1;
    }
    None
}

} // verus!
