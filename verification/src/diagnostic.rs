//! Diagnostic formatting: human-readable error lines, structured diagnostic
//! records, and display-path rewriting.
use vstd::prelude::*;
use crate::json::{
    field_insert, obj_get, obj_insert, opt_view, view_entries, view_seq, lemma_view_seq, Entries, Json,
    Value,
};
use crate::strings::{
    char_is_ws, chars_of, chars_occurs_at, is_ws, leading_ws, occurs_at, push_str, seq_starts_with,
    str_eq, string_of, trim_start,
};
use crate::trusted::{
    path_absolute, path_absolute_in, path_file_name, path_file_name_result, path_strip_prefix,
    path_strip_prefix_result, push_char,
};
use crate::validator::{seg_json, seg_text, DtError, PathSeg};

verus! {

pub open spec fn opt_str(o: Option<&str>) -> Option<Seq<char>> {
    match o {
        Some(s) => Some(s@),
        None => None,
    }
}

pub open spec fn opt_string(o: Option<String>) -> Option<Seq<char>> {
    match o {
        Some(s) => Some(s@),
        None => None,
    }
}

/// The path shown for `abs` when the working directory is `cwd`: relative to
/// `cwd` when it lies strictly below it, otherwise `abs` itself.
pub open spec fn display_of(abs: Seq<char>, cwd: Seq<char>) -> Seq<char> {
    match path_strip_prefix_result(abs, cwd) {
        Some(rel) => if rel.len() > 0 { rel } else { abs },
        None => abs,
    }
}

/// A path that starts at the root `/`.
pub open spec fn rooted(p: Seq<char>) -> bool {
    p.len() > 0 && p[0] == '/'
}

/// `a` is the absolute form of `filename`. A name that starts at `/` is made
/// absolute without the working directory, the same against any. A relative
/// name is made absolute against a working directory, or, where that cannot
/// be read, is kept as given. An empty name is kept as given.
pub open spec fn absolute_form(a: Seq<char>, filename: Seq<char>) -> bool {
    if filename.len() == 0 {
        a == filename
    } else if rooted(filename) {
        &&& rooted(a)
        &&& forall|cwd: Seq<char>| a == #[trigger] path_absolute_in(cwd, filename)
    } else {
        ||| a == filename
        ||| {
            &&& rooted(a)
            &&& exists|cwd: Seq<char>| rooted(cwd) && a == #[trigger] path_absolute_in(cwd, filename)
        }
    }
}

/// `c` is the working directory as the tools read it: `.` made absolute, or
/// empty where that fails.
pub open spec fn working_dir_form(c: Seq<char>) -> bool {
    c.len() == 0 || (rooted(c) && exists|w: Seq<char>| rooted(w) && c == #[trigger] path_absolute_in(w, "."@))
}

/// The working directory, as `.` made absolute; empty where that fails.
fn working_dir() -> (r: String)
    ensures
        working_dir_form(r@),
{
    match path_absolute(".") {
        Some(c) => c,
        None => String::new(),
    }
}

/// The display form of the absolute path `abs`: relative to the working
/// directory when it lies strictly below it, otherwise `abs` itself.
fn display_from(abs: &str) -> (r: String)
    ensures
        exists|c: Seq<char>| working_dir_form(c) && r@ == display_of(abs@, c),
{
    let cwd = working_dir();
    let r = match path_strip_prefix(abs, cwd.as_str()) {
        Some(rel) => if !rel.as_str().is_empty() { rel } else { abs.to_owned() },
        None => abs.to_owned(),
    };
    assert(r@ == display_of(abs@, cwd@));
    r
}

/// `shown` is how the tools show `filename`: its absolute form, made relative
/// to the working directory when it lies below it.
pub open spec fn shown_as(shown: Seq<char>, filename: Seq<char>) -> bool {
    exists|a: Seq<char>, c: Seq<char>|
        absolute_form(a, filename) && working_dir_form(c) && shown == #[trigger] display_of(a, c)
}

/// Return the path as the command-line tools show it: relative to the working
/// directory when the file lies within it, otherwise absolute.
pub fn display_path(filename: &str) -> (r: String)
    ensures
        shown_as(r@, filename@),
{
    let abs = abs_path(filename);
    display_from(abs.as_str())
}

/// Absolute path string used in formatted diagnostics: the file made absolute
/// against the working directory, or the name as given where that fails (an
/// empty name, or a working directory that cannot be read).
pub fn abs_path(filename: &str) -> (r: String)
    ensures
        absolute_form(r@, filename@),
{
    match path_absolute(filename) {
        Some(a) => a,
        None => filename.to_owned(),
    }
}

/// `a:b:0:` — each segment followed by a colon.
pub open spec fn path_text(p: Seq<PathSeg>) -> Seq<char>
    decreases p.len(),
{
    if p.len() == 0 {
        Seq::empty()
    } else {
        path_text(p.drop_last()) + seg_text(p.last()).push(':')
    }
}

/// Render a path segment list as `a:b:0:` (trailing colon per segment).
pub fn path_prefix(path: &[PathSeg]) -> (r: String)
    ensures
        r@ == path_text(path@),
{
    let mut s = String::new();
    let mut i: usize = 0;
    while i < path.len()
        invariant
            i <= path@.len(),
            s@ == path_text(path@.take(i as int)),
        decreases path.len() - i,
    {
        let t = path[i].to_display();
        push_str(&mut s, t.as_str());
        push_char(&mut s, ':');
        assert(path@.take(i + 1).drop_last() =~= path@.take(i as int));
        i += 1;
    }
    assert(path@.take(path@.len() as int) =~= path@);
    s
}

/// The error line for `error` in the file whose absolute path is `abs`:
/// `abs: node (compat): path: message`, then a `from schema $id:` note.
pub open spec fn error_text(
    abs: Seq<char>,
    error: DtError,
    nodename: Option<Seq<char>>,
    compatible: Option<Seq<char>>,
) -> Seq<char> {
    let node = match nodename {
        Some(nn) => nn + match compatible {
            Some(c) => " ("@ + c + ")"@,
            None => Seq::empty(),
        } + ": "@,
        None => Seq::empty(),
    };
    let path = if error.instance_path@.len() > 0 {
        path_text(error.instance_path@) + " "@
    } else {
        Seq::empty()
    };
    let note = if error.schema_file@.len() > 0 {
        "\n\tfrom schema $id: "@ + error.schema_file@
    } else {
        Seq::empty()
    };
    abs + ": "@ + node + path + error.message@ + note
}

/// Build the error line for a file whose absolute path is already known.
pub fn format_error_at(
    abs: &str,
    error: &DtError,
    nodename: Option<&str>,
    compatible: Option<&str>,
) -> (r: String)
    ensures
        r@ == error_text(abs@, *error, opt_str(nodename), opt_str(compatible)),
{
    let mut src = abs.to_owned();
    push_str(&mut src, ": ");
    let ghost head = src@;
    if let Some(nn) = nodename {
        push_str(&mut src, nn);
        if let Some(c) = compatible {
            push_str(&mut src, " (");
            push_str(&mut src, c);
            push_str(&mut src, ")");
        }
        push_str(&mut src, ": ");
    }
    let ghost after_node = src@;
    if !error.instance_path.is_empty() {
        let p = path_prefix(error.instance_path.as_slice());
        push_str(&mut src, p.as_str());
        push_str(&mut src, " ");
    }
    let ghost after_path = src@;
    push_str(&mut src, error.message.as_str());
    if !error.schema_file.as_str().is_empty() {
        push_str(&mut src, "\n\tfrom schema $id: ");
        push_str(&mut src, error.schema_file.as_str());
    }
    proof {
        let node = match opt_str(nodename) {
            Some(nn) => nn + match opt_str(compatible) {
                Some(c) => " ("@ + c + ")"@,
                None => Seq::empty(),
            } + ": "@,
            None => Seq::empty(),
        };
        assert(after_node =~= head + node);
        let path = if error.instance_path@.len() > 0 {
            path_text(error.instance_path@) + " "@
        } else {
            Seq::empty()
        };
        assert(after_path =~= head + node + path);
        let note = if error.schema_file@.len() > 0 {
            "\n\tfrom schema $id: "@ + error.schema_file@
        } else {
            Seq::empty()
        };
        assert(src@ =~= abs@ + ": "@ + node + path + error.message@ + note);
    }
    src
}

/// Build the `file: node (compat): path: message` line, with a trailing
/// `from schema $id:` note. The file is shown by its absolute path, which
/// depends on the working directory.
pub fn format_error(
    filename: &str,
    error: &DtError,
    nodename: Option<&str>,
    compatible: Option<&str>,
) -> (r: String)
    ensures
        exists|a: Seq<char>|
            absolute_form(a, filename@) && r@ == error_text(a, *error, opt_str(nodename), opt_str(compatible)),
{
    let abs = abs_path(filename);
    format_error_at(abs.as_str(), error, nodename, compatible)
}

/// Length of the first line of `s`, its `\n` included.
pub open spec fn first_line_len(s: Seq<char>) -> int
    decreases s.len(),
{
    if s.len() == 0 {
        0
    } else if s[0] == '\n' {
        1
    } else {
        1 + first_line_len(s.drop_first())
    }
}

/// One line with its `old:` prefix (after leading whitespace) rewritten.
pub open spec fn rewrite_line(line: Seq<char>, old: Seq<char>, new: Seq<char>) -> Seq<char> {
    let stripped = trim_start(line);
    let indent = line.take(line.len() - stripped.len());
    if seq_starts_with(stripped, old.push(':')) {
        indent + new + stripped.skip(old.len() as int)
    } else {
        line
    }
}

/// Every line of `text` with its `old:` prefix rewritten to `new:`.
pub open spec fn replace_lines(text: Seq<char>, old: Seq<char>, new: Seq<char>) -> Seq<char>
    decreases text.len(),
{
    if text.len() == 0 {
        Seq::empty()
    } else {
        let n = first_line_len(text);
        if 0 < n <= text.len() {
            rewrite_line(text.take(n), old, new) + replace_lines(text.skip(n), old, new)
        } else {
            text
        }
    }
}

proof fn lemma_first_line_len(s: Seq<char>)
    ensures
        s.len() > 0 ==> 0 < first_line_len(s) <= s.len(),
        s.len() == 0 ==> first_line_len(s) == 0,
    decreases s.len(),
{
    if s.len() > 0 && s[0] != '\n' {
        lemma_first_line_len(s.drop_first());
    }
}

// ---- laws of the line rewriting --------------------------------------------------------

/// `line`, after its leading whitespace, starts with `name:`.
pub open spec fn tagged(line: Seq<char>, name: Seq<char>) -> bool {
    seq_starts_with(trim_start(line), name.push(':'))
}

/// No line of `text` starts with `name:`.
pub open spec fn no_line_tagged(text: Seq<char>, name: Seq<char>) -> bool
    decreases text.len(),
{
    if text.len() == 0 {
        true
    } else {
        let n = first_line_len(text);
        if 0 < n <= text.len() {
            !tagged(text.take(n), name) && no_line_tagged(text.skip(n), name)
        } else {
            true
        }
    }
}

/// A name that can open a line: no newline in it and no leading whitespace.
pub open spec fn line_name(name: Seq<char>) -> bool {
    (forall|i: int| 0 <= i < name.len() ==> name[i] != '\n') && (name.len() == 0 || !is_ws(name[0]))
}

proof fn lemma_trim_start(s: Seq<char>)
    ensures
        trim_start(s).len() <= s.len(),
        trim_start(s) == s.skip(s.len() - trim_start(s).len()),
        forall|i: int| 0 <= i < s.len() - trim_start(s).len() ==> is_ws(#[trigger] s[i]),
        trim_start(s).len() > 0 ==> !is_ws(trim_start(s)[0]),
    decreases s.len(),
{
    if s.len() > 0 && is_ws(s[0]) {
        lemma_trim_start(s.drop_first());
        let t = trim_start(s.drop_first());
        assert(s.drop_first().skip(s.drop_first().len() - t.len()) =~= s.skip(s.len() - t.len()));
        assert forall|i: int| 0 <= i < s.len() - t.len() implies is_ws(#[trigger] s[i]) by {
            if i > 0 {
                assert(s[i] == s.drop_first()[i - 1]);
            }
        }
    } else {
        assert(s.skip(0) =~= s);
    }
}

proof fn lemma_trim_start_after_ws(a: Seq<char>, x: Seq<char>)
    requires
        forall|i: int| 0 <= i < a.len() ==> is_ws(#[trigger] a[i]),
        x.len() == 0 || !is_ws(x[0]),
    ensures
        trim_start(a + x) == x,
    decreases a.len(),
{
    if a.len() > 0 {
        assert((a + x)[0] == a[0]);
        assert((a + x).drop_first() =~= a.drop_first() + x);
        assert forall|i: int| 0 <= i < a.drop_first().len() implies is_ws(#[trigger] a.drop_first()[i]) by {
            assert(a.drop_first()[i] == a[i + 1]);
        }
        lemma_trim_start_after_ws(a.drop_first(), x);
    } else {
        assert(a + x =~= x);
    }
}

proof fn lemma_first_line(text: Seq<char>)
    requires
        text.len() > 0,
    ensures
        0 < first_line_len(text) <= text.len(),
        forall|i: int| 0 <= i < first_line_len(text) - 1 ==> #[trigger] text[i] != '\n',
        first_line_len(text) < text.len() ==> text[first_line_len(text) - 1] == '\n',
    decreases text.len(),
{
    if text[0] != '\n' && text.len() == 1 {
        assert(text.drop_first().len() == 0);
        assert(first_line_len(text.drop_first()) == 0);
    }
    if text[0] != '\n' && text.len() > 1 {
        lemma_first_line(text.drop_first());
        assert(first_line_len(text) == 1 + first_line_len(text.drop_first()));
        assert forall|i: int| 0 <= i < first_line_len(text) - 1 implies #[trigger] text[i] != '\n' by {
            if i > 0 {
                assert(text[i] == text.drop_first()[i - 1]);
            }
        }
    }
}

proof fn lemma_first_line_len_concat(a: Seq<char>, b: Seq<char>)
    requires
        a.len() > 0,
        forall|i: int| 0 <= i < a.len() - 1 ==> #[trigger] a[i] != '\n',
        a.last() == '\n' || b.len() == 0,
    ensures
        first_line_len(a + b) == a.len(),
    decreases a.len(),
{
    assert((a + b)[0] == a[0]);
    if a.len() == 1 {
        if a[0] != '\n' {
            assert(a + b =~= a);
            assert(a.drop_first().len() == 0);
            assert(first_line_len(a.drop_first()) == 0);
            assert(first_line_len(a) == 1 + first_line_len(a.drop_first()));
        }
    } else {
        assert(a[0] != '\n');
        assert((a + b).drop_first() =~= a.drop_first() + b);
        assert(first_line_len(a + b) == 1 + first_line_len((a + b).drop_first()));
        assert forall|i: int| 0 <= i < a.drop_first().len() - 1 implies #[trigger] a.drop_first()[i] != '\n' by {
            assert(a.drop_first()[i] == a[i + 1]);
        }
        lemma_first_line_len_concat(a.drop_first(), b);
    }
}

/// A rewritten line is still one line, ending as it did.
proof fn lemma_rewrite_shape(line: Seq<char>, old: Seq<char>, new: Seq<char>)
    requires
        line_name(new),
        line.len() > 0,
        forall|i: int| 0 <= i < line.len() - 1 ==> #[trigger] line[i] != '\n',
    ensures
        rewrite_line(line, old, new).len() > 0,
        forall|i: int| 0 <= i < rewrite_line(line, old, new).len() - 1 ==> #[trigger] rewrite_line(line, old, new)[i] != '\n',
        rewrite_line(line, old, new).last() == line.last(),
{
    lemma_trim_start(line);
    let stripped = trim_start(line);
    let k = line.len() - stripped.len();
    if tagged(line, old) {
        let indent = line.take(k);
        let tail = stripped.skip(old.len() as int);
        let r = indent + new + tail;
        assert(stripped.take(old.len() + 1int) == old.push(':'));
        assert(tail.len() > 0);
        assert forall|i: int| 0 <= i < r.len() - 1 implies #[trigger] r[i] != '\n' by {
            if i < k {
                assert(r[i] == line[i]);
            } else if i < k + new.len() {
                assert(r[i] == new[i - k]);
            } else {
                assert(r[i] == tail[i - k - new.len()]);
                assert(tail[i - k - new.len()] == line[i - new.len() + old.len()]);
            }
        }
        assert(r.last() == tail.last());
        assert(tail.last() == line.last());
    }
}

/// Rewriting `old` to `new` and back restores a line that did not start
/// with `new:`.
proof fn lemma_rewrite_roundtrip(line: Seq<char>, old: Seq<char>, new: Seq<char>)
    requires
        line_name(new),
        !tagged(line, new),
    ensures
        rewrite_line(rewrite_line(line, old, new), new, old) == line,
{
    lemma_trim_start(line);
    let stripped = trim_start(line);
    let k = line.len() - stripped.len();
    let indent = line.take(k);
    if tagged(line, old) {
        let tail = stripped.skip(old.len() as int);
        assert(stripped.take(old.len() + 1int) == old.push(':'));
        assert(stripped.take(old.len() + 1int)[old.len() as int] == ':');
        assert(tail[0] == stripped[old.len() as int]);
        assert(tail.len() > 0 && tail[0] == ':');
        assert forall|i: int| 0 <= i < old.len() implies #[trigger] stripped[i] == old[i] by {
            assert(stripped.take(old.len() + 1int)[i] == stripped[i]);
            assert(old.push(':')[i] == old[i]);
        }
        let x = new + tail;
        assert(x.len() > 0 && !is_ws(x[0])) by {
            if new.len() == 0 {
                assert(x[0] == tail[0]);
            } else {
                assert(x[0] == new[0]);
            }
        }
        assert forall|i: int| 0 <= i < indent.len() implies is_ws(#[trigger] indent[i]) by {
            assert(indent[i] == line[i]);
        }
        let r = indent + new + tail;
        assert(r =~= indent + x);
        lemma_trim_start_after_ws(indent, x);
        assert(trim_start(r) == x);
        assert(x.take(new.len() + 1int) =~= new.push(':'));
        assert(tagged(r, new));
        assert(r.take(r.len() - x.len()) =~= indent);
        assert(x.skip(new.len() as int) =~= tail);
        assert(indent + old + tail =~= indent + stripped) by {
            assert(stripped =~= old + tail);
        }
        assert(indent + stripped =~= line);
    }
}

/// Rewriting every line from `old` to `new` and back gives the text back,
/// when `new` can open a line and no line started with `new:`. Any `old`
/// will do: a name that cannot open a line is never rewritten.
pub proof fn lemma_replace_lines_roundtrip(text: Seq<char>, old: Seq<char>, new: Seq<char>)
    requires
        line_name(new),
        no_line_tagged(text, new),
    ensures
        replace_lines(replace_lines(text, old, new), new, old) == text,
    decreases text.len(),
{
    if text.len() > 0 {
        lemma_first_line(text);
        let n = first_line_len(text);
        let line = text.take(n);
        let rest = text.skip(n);
        assert forall|i: int| 0 <= i < line.len() - 1 implies #[trigger] line[i] != '\n' by {
            assert(line[i] == text[i]);
        }
        lemma_replace_lines_roundtrip(rest, old, new);
        lemma_rewrite_shape(line, old, new);
        lemma_rewrite_roundtrip(line, old, new);
        let r1 = rewrite_line(line, old, new);
        let r2 = replace_lines(rest, old, new);
        if n == text.len() {
            assert(rest.len() == 0);
            assert(r2.len() == 0);
        } else {
            assert(line.last() == '\n');
        }
        lemma_first_line_len_concat(r1, r2);
        let t = r1 + r2;
        assert(t.take(r1.len() as int) =~= r1);
        assert(t.skip(r1.len() as int) =~= r2);
        assert(line + rest =~= text);
    }
}

/// Rewriting a name to itself changes no line.
pub proof fn lemma_replace_lines_same(text: Seq<char>, name: Seq<char>)
    ensures
        replace_lines(text, name, name) == text,
    decreases text.len(),
{
    if text.len() > 0 {
        lemma_first_line_len(text);
        let n = first_line_len(text);
        let line = text.take(n);
        lemma_replace_lines_same(text.skip(n), name);
        lemma_trim_start(line);
        let stripped = trim_start(line);
        if tagged(line, name) {
            assert(stripped.take(name.len() + 1int) == name.push(':'));
            assert forall|i: int| 0 <= i < name.len() implies #[trigger] stripped[i] == name[i] by {
                assert(stripped.take(name.len() + 1int)[i] == stripped[i]);
                assert(name.push(':')[i] == name[i]);
            }
            assert(stripped =~= name + stripped.skip(name.len() as int));
            assert(line.take(line.len() - stripped.len()) + stripped =~= line);
        }
        assert(line + text.skip(n) =~= text);
    }
}

/// Index just past the first `\n` at or after `from`, or the end.
fn line_end(v: &[char], from: usize) -> (r: usize)
    requires
        from < v@.len(),
    ensures
        from < r <= v@.len(),
        r - from == first_line_len(v@.skip(from as int)),
{
    let mut j = from;
    while j < v.len() && v[j] != '\n'
        invariant
            from <= j <= v@.len(),
            first_line_len(v@.skip(from as int)) == (j - from) + first_line_len(v@.skip(j as int)),
        decreases v.len() - j,
    {
        assert(v@.skip(j as int).drop_first() =~= v@.skip(j + 1));
        j += 1;
    }
    if j < v.len() {
        assert(v@.skip(j as int)[0] == '\n');
        j + 1
    } else {
        assert(v@.skip(j as int).len() == 0);
        j
    }
}

fn push_range(out: &mut String, v: &[char], a: usize, b: usize)
    requires
        a <= b <= v@.len(),
    ensures
        final(out)@ == old(out)@ + v@.subrange(a as int, b as int),
{
    let ghost start = out@;
    let mut i = a;
    while i < b
        invariant
            a <= i <= b <= v@.len(),
            out@ == start + v@.subrange(a as int, i as int),
        decreases b - i,
    {
        push_char(out, v[i]);
        i += 1;
        assert(out@ =~= start + v@.subrange(a as int, i as int));
    }
}

/// Rewrite `old:`-prefixed line starts (after leading whitespace) to `new`.
/// Used to turn absolute paths into display paths in already-formatted text.
pub fn replace_filename_prefix(text: &str, old: &str, new: &str) -> (r: String)
    ensures
        r@ == replace_lines(text@, old@, new@),
{
    let v = chars_of(text);
    let mut needle = chars_of(old);
    needle.push(':');
    let newc = chars_of(new);
    let mut out = String::new();
    let mut start: usize = 0;
    assert(v@.skip(0) =~= v@);
    while start < v.len()
        invariant
            start <= v@.len(),
            v@ == text@,
            needle@ == old@.push(':'),
            newc@ == new@,
            out@ + replace_lines(v@.skip(start as int), old@, new@) == replace_lines(text@, old@, new@),
        decreases v.len() - start,
    {
        let end = line_end(v.as_slice(), start);
        let ghost rest = v@.skip(start as int);
        let ghost line = rest.take(end - start);
        assert(line =~= v@.subrange(start as int, end as int));
        assert(rest.skip(end - start) =~= v@.skip(end as int));
        let ws_end = leading_ws(v.as_slice(), start, end);
        let ghost stripped = v@.subrange(ws_end as int, end as int);
        assert(trim_start(line) == stripped);
        assert(line.take(line.len() - stripped.len()) =~= v@.subrange(start as int, ws_end as int));
        let matched = needle.len() <= end - ws_end && chars_occurs_at(v.as_slice(), needle.as_slice(), ws_end);
        let ghost before = out@;
        if matched {
            assert(stripped.take(needle@.len() as int) =~= v@.subrange(ws_end as int, ws_end + needle@.len()));
            push_range(&mut out, v.as_slice(), start, ws_end);
            push_str(&mut out, new);
            push_range(&mut out, v.as_slice(), ws_end + old.unicode_len(), end);
            assert(stripped.skip(old@.len() as int) =~= v@.subrange(ws_end + old@.len(), end as int));
            assert(out@ =~= before + rewrite_line(line, old@, new@));
        } else {
            assert(!seq_starts_with(stripped, old@.push(':'))) by {
                if seq_starts_with(stripped, old@.push(':')) {
                    assert(stripped.take(needle@.len() as int) =~= v@.subrange(ws_end as int, ws_end + needle@.len()));
                    assert(occurs_at(v@, needle@, ws_end as int));
                }
            }
            push_range(&mut out, v.as_slice(), start, end);
            assert(out@ =~= before + rewrite_line(line, old@, new@));
        }
        proof {
            lemma_first_line_len(rest);
        }
        start = end;
    }
    assert(v@.skip(start as int).len() == 0);
    out
}

/// The error line with the absolute path `abs` rewritten to `display`.
pub fn format_error_display_at(
    abs: &str,
    display: &str,
    error: &DtError,
    nodename: Option<&str>,
    compatible: Option<&str>,
) -> (r: String)
    ensures
        r@ == replace_lines(
            error_text(abs@, *error, opt_str(nodename), opt_str(compatible)),
            abs@,
            display@,
        ),
{
    let text = format_error_at(abs, error, nodename, compatible);
    replace_filename_prefix(text.as_str(), abs, display)
}

/// The error line of `format_error_display`: the line for the absolute path
/// `a`, with `a` rewritten to its display form under the working directory `c`.
pub open spec fn display_error_text(
    a: Seq<char>,
    c: Seq<char>,
    error: DtError,
    nodename: Option<Seq<char>>,
    compatible: Option<Seq<char>>,
) -> Seq<char> {
    replace_lines(error_text(a, error, nodename, compatible), a, display_of(a, c))
}

/// Format an error, then rewrite the absolute path to the display path. The
/// file is made absolute once, and that path is both written and rewritten;
/// where it does not lie below the working directory the line is left as
/// `format_error` writes it.
pub fn format_error_display(
    filename: &str,
    error: &DtError,
    nodename: Option<&str>,
    compatible: Option<&str>,
) -> (r: String)
    ensures
        exists|a: Seq<char>, c: Seq<char>| {
            &&& absolute_form(a, filename@)
            &&& working_dir_form(c)
            &&& r@ == display_error_text(a, c, *error, opt_str(nodename), opt_str(compatible))
            &&& display_of(a, c) == a ==> r@ == error_text(a, *error, opt_str(nodename), opt_str(compatible))
        },
{
    let abs = abs_path(filename);
    let disp = display_from(abs.as_str());
    let r = format_error_display_at(abs.as_str(), disp.as_str(), error, nodename, compatible);
    proof {
        let c = choose|c: Seq<char>| working_dir_form(c) && disp@ == display_of(abs@, c);
        lemma_replace_lines_same(error_text(abs@, *error, opt_str(nodename), opt_str(compatible)), abs@);
        assert(absolute_form(abs@, filename@));
        assert(r@ == display_error_text(abs@, c, *error, opt_str(nodename), opt_str(compatible)));
    }
    r
}

pub open spec fn path_json(p: Seq<PathSeg>) -> Seq<Json> {
    p.map_values(|s: PathSeg| seg_json(s))
}

/// Render a path segment list as a JSON array.
fn error_path_json(path: &[PathSeg]) -> (r: Value)
    ensures
        r@ == Json::Array(path_json(path@)),
{
    let mut out: Vec<Value> = Vec::new();
    let mut i: usize = 0;
    while i < path.len()
        invariant
            i <= path@.len(),
            out@.len() == i,
            forall|j: int| 0 <= j < i ==> #[trigger] out@[j]@ == seg_json(path@[j]),
        decreases path.len() - i,
    {
        out.push(path[i].as_json());
        i += 1;
    }
    proof {
        lemma_view_seq(out@);
        assert(view_seq(out@) =~= path_json(path@));
    }
    Value::Array(out)
}


/// Diagnostic severity in structured output.
#[derive(Debug, Clone, Copy, PartialEq, Eq, Structural)]
pub enum DiagnosticLevel {
    Error,
    Warning,
}

/// Structured diagnostics.
#[derive(Debug)]
pub enum Diagnostic {
    Validation {
        level: DiagnosticLevel,
        file: String,
        line: Option<u64>,
        column: Option<u64>,
        node: Option<String>,
        nodename: Option<String>,
        compatible: Option<String>,
        property_path: Value,
        schema_path: Value,
        schema: String,
        message: String,
        formatted: Option<String>,
    },
    Unmatched {
        level: DiagnosticLevel,
        file: String,
        line: Option<u64>,
        column: Option<u64>,
        node: String,
        nodename: String,
        compatible: Vec<String>,
        message: String,
        formatted: Option<String>,
    },
    Decode {
        level: DiagnosticLevel,
        file: String,
        line: Option<u64>,
        column: Option<u64>,
        message: String,
    },
}

pub open spec fn level_json(l: DiagnosticLevel) -> Json {
    match l {
        DiagnosticLevel::Error => Json::Str("error"@),
        DiagnosticLevel::Warning => Json::Str("warning"@),
    }
}

pub open spec fn opt_string_json(o: Option<String>) -> Json {
    match o {
        Some(s) => Json::Str(s@),
        None => Json::Null,
    }
}

pub open spec fn opt_u64_json(o: Option<u64>) -> Json {
    match o {
        Some(n) => Json::Int(n as int),
        None => Json::Null,
    }
}

pub open spec fn strings_json(v: Seq<String>) -> Json {
    Json::Array(v.map_values(|s: String| Json::Str(s@)))
}

/// `formatted` is written only when present.
pub open spec fn with_formatted(m: Entries, f: Option<String>) -> Entries {
    match f {
        Some(s) => obj_insert(m, "formatted"@, Json::Str(s@)),
        None => m,
    }
}

/// The structured record of a diagnostic: its fields by name, with a `type`
/// tag naming the variant.
pub open spec fn diagnostic_json(d: Diagnostic) -> Json {
    match d {
        Diagnostic::Validation {
            level, file, line, column, node, nodename, compatible, property_path,
            schema_path, schema, message, formatted,
        } => {
            let m = obj_insert(Seq::empty(), "type"@, Json::Str("validation"@));
            let m = obj_insert(m, "level"@, level_json(level));
            let m = obj_insert(m, "file"@, Json::Str(file@));
            let m = obj_insert(m, "line"@, opt_u64_json(line));
            let m = obj_insert(m, "column"@, opt_u64_json(column));
            let m = obj_insert(m, "node"@, opt_string_json(node));
            let m = obj_insert(m, "nodename"@, opt_string_json(nodename));
            let m = obj_insert(m, "compatible"@, opt_string_json(compatible));
            let m = obj_insert(m, "property_path"@, property_path@);
            let m = obj_insert(m, "schema_path"@, schema_path@);
            let m = obj_insert(m, "schema"@, Json::Str(schema@));
            let m = obj_insert(m, "message"@, Json::Str(message@));
            Json::Object(with_formatted(m, formatted))
        },
        Diagnostic::Unmatched {
            level, file, line, column, node, nodename, compatible, message, formatted,
        } => {
            let m = obj_insert(Seq::empty(), "type"@, Json::Str("unmatched"@));
            let m = obj_insert(m, "level"@, level_json(level));
            let m = obj_insert(m, "file"@, Json::Str(file@));
            let m = obj_insert(m, "line"@, opt_u64_json(line));
            let m = obj_insert(m, "column"@, opt_u64_json(column));
            let m = obj_insert(m, "node"@, Json::Str(node@));
            let m = obj_insert(m, "nodename"@, Json::Str(nodename@));
            let m = obj_insert(m, "compatible"@, strings_json(compatible@));
            let m = obj_insert(m, "message"@, Json::Str(message@));
            Json::Object(with_formatted(m, formatted))
        },
        Diagnostic::Decode { level, file, line, column, message } => {
            let m = obj_insert(Seq::empty(), "type"@, Json::Str("decode"@));
            let m = obj_insert(m, "level"@, level_json(level));
            let m = obj_insert(m, "file"@, Json::Str(file@));
            let m = obj_insert(m, "line"@, opt_u64_json(line));
            let m = obj_insert(m, "column"@, opt_u64_json(column));
            let m = obj_insert(m, "message"@, Json::Str(message@));
            Json::Object(m)
        },
    }
}

/// The text shown for a diagnostic: `formatted` when present, else a
/// variant-specific fallback.
pub open spec fn diagnostic_line(d: Diagnostic) -> Seq<char> {
    match d {
        Diagnostic::Validation { message, formatted, .. } => match formatted {
            Some(f) => f@,
            None => message@,
        },
        Diagnostic::Unmatched { file, node, message, formatted, .. } => match formatted {
            Some(f) => f@,
            None => file@ + ": "@ + node@ + ": "@ + message@,
        },
        Diagnostic::Decode { message, .. } => message@,
    }
}

pub open spec fn formatted_of(d: Diagnostic) -> Option<Seq<char>> {
    match d {
        Diagnostic::Validation { formatted, .. } => opt_string(formatted),
        Diagnostic::Unmatched { formatted, .. } => opt_string(formatted),
        Diagnostic::Decode { .. } => None,
    }
}

/// `a` and `b` agree on every field but `formatted`.
pub open spec fn same_but_formatted(a: Diagnostic, b: Diagnostic) -> bool {
    match (a, b) {
        (
            Diagnostic::Validation {
                level: l1, file: f1, line: n1, column: c1, node: d1, nodename: m1, compatible: p1,
                property_path: q1, schema_path: s1, schema: h1, message: g1, ..
            },
            Diagnostic::Validation {
                level: l2, file: f2, line: n2, column: c2, node: d2, nodename: m2, compatible: p2,
                property_path: q2, schema_path: s2, schema: h2, message: g2, ..
            },
        ) => l1 == l2 && f1 == f2 && n1 == n2 && c1 == c2 && d1 == d2 && m1 == m2 && p1 == p2
            && q1 == q2 && s1 == s2 && h1 == h2 && g1 == g2,
        (
            Diagnostic::Unmatched {
                level: l1, file: f1, line: n1, column: c1, node: d1, nodename: m1, compatible: p1,
                message: g1, ..
            },
            Diagnostic::Unmatched {
                level: l2, file: f2, line: n2, column: c2, node: d2, nodename: m2, compatible: p2,
                message: g2, ..
            },
        ) => l1 == l2 && f1 == f2 && n1 == n2 && c1 == c2 && d1 == d2 && m1 == m2 && p1 == p2
            && g1 == g2,
        (Diagnostic::Decode { .. }, Diagnostic::Decode { .. }) => a == b,
        _ => false,
    }
}

fn level_value(l: DiagnosticLevel) -> (r: Value)
    ensures
        r@ == level_json(l),
{
    match l {
        DiagnosticLevel::Error => Value::string("error"),
        DiagnosticLevel::Warning => Value::string("warning"),
    }
}

fn opt_string_value(o: &Option<String>) -> (r: Value)
    ensures
        r@ == opt_string_json(*o),
{
    match o {
        Some(s) => Value::Str(s.clone()),
        None => Value::Null,
    }
}

fn opt_u64_value(o: Option<u64>) -> (r: Value)
    ensures
        r@ == opt_u64_json(o),
{
    match o {
        Some(n) => Value::Int(n as i128),
        None => Value::Null,
    }
}

/// The strings as a JSON array.
pub fn strings_value(v: &[String]) -> (r: Value)
    ensures
        r@ == strings_json(v@),
{
    let mut out: Vec<Value> = Vec::new();
    let mut i: usize = 0;
    while i < v.len()
        invariant
            i <= v@.len(),
            out@.len() == i,
            forall|j: int| 0 <= j < i ==> #[trigger] out@[j]@ == Json::Str(v@[j]@),
        decreases v.len() - i,
    {
        out.push(Value::Str(v[i].clone()));
        i += 1;
    }
    proof {
        lemma_view_seq(out@);
        assert(view_seq(out@) =~= v@.map_values(|s: String| Json::Str(s@)));
    }
    Value::Array(out)
}

fn put(o: &mut Vec<(String, Value)>, k: &str, v: Value)
    ensures
        view_entries(final(o)@) == obj_insert(view_entries(old(o)@), k@, v@),
{
    field_insert(o, k.to_owned(), v);
}

impl Diagnostic {
    /// The structured record of this diagnostic.
    pub fn to_value(&self) -> (r: Value)
        ensures
            r@ == diagnostic_json(*self),
    {
        let mut o: Vec<(String, Value)> = Vec::new();
        proof {
            assert(view_entries(o@) == Seq::<(Seq<char>, Json)>::empty());
        }
        match self {
            Diagnostic::Validation {
                level, file, line, column, node, nodename, compatible, property_path,
                schema_path, schema, message, formatted,
            } => {
                put(&mut o, "type", Value::string("validation"));
                put(&mut o, "level", level_value(*level));
                put(&mut o, "file", Value::Str(file.clone()));
                put(&mut o, "line", opt_u64_value(*line));
                put(&mut o, "column", opt_u64_value(*column));
                put(&mut o, "node", opt_string_value(node));
                put(&mut o, "nodename", opt_string_value(nodename));
                put(&mut o, "compatible", opt_string_value(compatible));
                put(&mut o, "property_path", crate::json::copy_value(property_path));
                put(&mut o, "schema_path", crate::json::copy_value(schema_path));
                put(&mut o, "schema", Value::Str(schema.clone()));
                put(&mut o, "message", Value::Str(message.clone()));
                if let Some(f) = formatted {
                    put(&mut o, "formatted", Value::Str(f.clone()));
                }
            },
            Diagnostic::Unmatched {
                level, file, line, column, node, nodename, compatible, message, formatted,
            } => {
                put(&mut o, "type", Value::string("unmatched"));
                put(&mut o, "level", level_value(*level));
                put(&mut o, "file", Value::Str(file.clone()));
                put(&mut o, "line", opt_u64_value(*line));
                put(&mut o, "column", opt_u64_value(*column));
                put(&mut o, "node", Value::Str(node.clone()));
                put(&mut o, "nodename", Value::Str(nodename.clone()));
                put(&mut o, "compatible", strings_value(compatible.as_slice()));
                put(&mut o, "message", Value::Str(message.clone()));
                if let Some(f) = formatted {
                    put(&mut o, "formatted", Value::Str(f.clone()));
                }
            },
            Diagnostic::Decode { level, file, line, column, message } => {
                put(&mut o, "type", Value::string("decode"));
                put(&mut o, "level", level_value(*level));
                put(&mut o, "file", Value::Str(file.clone()));
                put(&mut o, "line", opt_u64_value(*line));
                put(&mut o, "column", opt_u64_value(*column));
                put(&mut o, "message", Value::Str(message.clone()));
            },
        }
        Value::Object(o)
    }

    /// The text shown for this diagnostic.
    pub fn text(&self) -> (r: String)
        ensures
            r@ == diagnostic_line(*self),
    {
        match self {
            Diagnostic::Validation { message, formatted, .. } => match formatted {
                Some(f) => f.clone(),
                None => message.clone(),
            },
            Diagnostic::Unmatched { file, node, message, formatted, .. } => match formatted {
                Some(f) => f.clone(),
                None => {
                    let mut s = file.clone();
                    push_str(&mut s, ": ");
                    push_str(&mut s, node.as_str());
                    push_str(&mut s, ": ");
                    push_str(&mut s, message.as_str());
                    s
                },
            },
            Diagnostic::Decode { message, .. } => message.clone(),
        }
    }

    /// Set `formatted` to `text` unless it is already set.
    pub fn set_formatted_if_missing(&mut self, text: &str)
        ensures
            same_but_formatted(*old(self), *final(self)),
            formatted_of(*final(self)) == match formatted_of(*old(self)) {
                Some(f) => Some(f),
                None => match *old(self) {
                    Diagnostic::Decode { .. } => None,
                    _ => Some(text@),
                },
            },
    {
        match self {
            Diagnostic::Validation { formatted, .. } => {
                if formatted.is_none() {
                    *formatted = Some(text.to_owned());
                }
            },
            Diagnostic::Unmatched { formatted, .. } => {
                if formatted.is_none() {
                    *formatted = Some(text.to_owned());
                }
            },
            Diagnostic::Decode { .. } => {},
        }
    }
}


/// The record of a validation error found in the file `filename`.
pub open spec fn is_error_diagnostic(
    d: Diagnostic,
    filename: Seq<char>,
    error: DtError,
    nodename: Option<Seq<char>>,
    fullname: Option<Seq<char>>,
    compatible: Option<Seq<char>>,
    formatted: Option<Seq<char>>,
) -> bool {
    match d {
        Diagnostic::Validation {
            level, file, line, column, node, nodename: nn, compatible: c, property_path,
            schema_path, schema, message, formatted: f,
        } => {
            &&& level == DiagnosticLevel::Error
            &&& shown_as(file@, filename)
            &&& line is None
            &&& column is None
            &&& opt_string(node) == fullname
            &&& opt_string(nn) == nodename
            &&& opt_string(c) == compatible
            &&& property_path@ == Json::Array(path_json(error.instance_path@))
            &&& schema_path@ == Json::Array(path_json(error.schema_path@))
            &&& schema@ == error.schema_file@
            &&& message@ == error.message@
            &&& opt_string(f) == formatted
        },
        _ => false,
    }
}

fn opt_owned(o: Option<&str>) -> (r: Option<String>)
    ensures
        opt_string(r) == opt_str(o),
{
    match o {
        Some(s) => Some(s.to_owned()),
        None => None,
    }
}

/// Build the record for a validation error.
pub fn error_diagnostic(
    filename: &str,
    error: &DtError,
    nodename: Option<&str>,
    fullname: Option<&str>,
    compatible: Option<&str>,
    formatted: Option<&str>,
) -> (r: Diagnostic)
    ensures
        is_error_diagnostic(
            r,
            filename@,
            *error,
            opt_str(nodename),
            opt_str(fullname),
            opt_str(compatible),
            opt_str(formatted),
        ),
{
    Diagnostic::Validation {
        level: DiagnosticLevel::Error,
        file: display_path(filename),
        line: None,
        column: None,
        node: opt_owned(fullname),
        nodename: opt_owned(nodename),
        compatible: opt_owned(compatible),
        property_path: error_path_json(error.instance_path.as_slice()),
        schema_path: error_path_json(error.schema_path.as_slice()),
        schema: error.schema_file.clone(),
        message: error.message.clone(),
        formatted: opt_owned(formatted),
    }
}

/// `s` with `\\` and `'` escaped by a backslash.
pub open spec fn py_escape(s: Seq<char>) -> Seq<char>
    decreases s.len(),
{
    if s.len() == 0 {
        Seq::empty()
    } else {
        let c = s.last();
        py_escape(s.drop_last()) + if c == '\\' || c == '\'' {
            seq!['\\', c]
        } else {
            seq![c]
        }
    }
}

/// The items quoted and joined by `, `.
pub open spec fn py_items(items: Seq<String>) -> Seq<char>
    decreases items.len(),
{
    if items.len() == 0 {
        Seq::empty()
    } else {
        let q = seq!['\''] + py_escape(items.last()@) + seq!['\''];
        if items.len() == 1 {
            q
        } else {
            py_items(items.drop_last()) + ", "@ + q
        }
    }
}

/// Legacy single-quoted list representation: `['a', 'b']`.
pub open spec fn py_list_text(items: Seq<String>) -> Seq<char> {
    seq!['['] + py_items(items) + seq![']']
}

fn py_escape_into(out: &mut String, s: &str)
    ensures
        final(out)@ == old(out)@ + py_escape(s@),
{
    let v = chars_of(s);
    let ghost start = out@;
    let mut i: usize = 0;
    while i < v.len()
        invariant
            i <= v@.len(),
            v@ == s@,
            out@ == start + py_escape(v@.take(i as int)),
        decreases v.len() - i,
    {
        let c = v[i];
        if c == '\\' || c == '\'' {
            push_char(out, '\\');
        }
        push_char(out, c);
        assert(v@.take(i + 1).drop_last() =~= v@.take(i as int));
        i += 1;
        assert(out@ =~= start + py_escape(v@.take(i as int)));
    }
    assert(v@.take(v@.len() as int) =~= v@);
}

/// Legacy single-quoted list representation: `['a', 'b']`.
pub fn py_list_repr(items: &[String]) -> (r: String)
    ensures
        r@ == py_list_text(items@),
{
    let mut s = String::new();
    push_char(&mut s, '[');
    let ghost start = s@;
    let mut i: usize = 0;
    while i < items.len()
        invariant
            i <= items@.len(),
            s@ == start + py_items(items@.take(i as int)),
            start == seq!['['],
        decreases items.len() - i,
    {
        let ghost before = s@;
        if i > 0 {
            push_str(&mut s, ", ");
        }
        push_char(&mut s, '\'');
        py_escape_into(&mut s, items[i].as_str());
        push_char(&mut s, '\'');
        assert(items@.take(i + 1).drop_last() =~= items@.take(i as int));
        assert(items@.take(i + 1).last() == items@[i as int]);
        i += 1;
        assert(s@ =~= start + py_items(items@.take(i as int)));
    }
    assert(items@.take(items@.len() as int) =~= items@);
    push_char(&mut s, ']');
    s
}

pub open spec fn unmatched_text(compatible: Seq<String>) -> Seq<char> {
    "failed to match any schema with compatible: "@ + py_list_text(compatible)
}

/// The `message` of an unmatched-compatible diagnostic.
pub fn unmatched_message(compatible: &[String]) -> (r: String)
    ensures
        r@ == unmatched_text(compatible@),
{
    let mut s = "failed to match any schema with compatible: ".to_owned();
    let l = py_list_repr(compatible);
    push_str(&mut s, l.as_str());
    s
}

/// The node name shown for `fullname`: its last path component, or the full
/// name when it has none.
pub open spec fn node_basename(fullname: Seq<char>) -> Seq<char> {
    match path_file_name_result(fullname) {
        Some(n) => if n.len() > 0 { n } else { fullname },
        None => fullname,
    }
}

/// The record of a node in the file `filename` whose compatibles matched no
/// schema.
pub open spec fn is_unmatched_diagnostic(
    d: Diagnostic,
    filename: Seq<char>,
    fullname: Seq<char>,
    compatible: Seq<String>,
) -> bool {
    match d {
        Diagnostic::Unmatched {
            level, file, line, column, node, nodename, compatible: c, message, formatted,
        } => {
            &&& level == DiagnosticLevel::Warning
            &&& shown_as(file@, filename)
            &&& line is None
            &&& column is None
            &&& node@ == fullname
            &&& nodename@ == node_basename(fullname)
            &&& strings_json(c@) == strings_json(compatible)
            &&& message@ == unmatched_text(compatible)
            &&& formatted is None
        },
        _ => false,
    }
}

/// Build the record for a node whose compatible matched no schema.
pub fn unmatched_diagnostic(filename: &str, fullname: &str, compatible: &[String]) -> (r: Diagnostic)
    ensures
        is_unmatched_diagnostic(r, filename@, fullname@, compatible@),
{
    let nodename = match path_file_name(fullname) {
        Some(n) => if !n.as_str().is_empty() { n } else { fullname.to_owned() },
        None => fullname.to_owned(),
    };
    let mut list: Vec<String> = Vec::new();
    let mut i: usize = 0;
    while i < compatible.len()
        invariant
            i <= compatible@.len(),
            list@.len() == i,
            forall|j: int| 0 <= j < i ==> #[trigger] list@[j]@ == compatible@[j]@,
        decreases compatible.len() - i,
    {
        list.push(compatible[i].clone());
        i += 1;
    }
    assert(list@.map_values(|s: String| Json::Str(s@)) =~= compatible@.map_values(|s: String| Json::Str(s@)));
    Diagnostic::Unmatched {
        level: DiagnosticLevel::Warning,
        file: display_path(filename),
        line: None,
        column: None,
        node: fullname.to_owned(),
        nodename,
        compatible: list,
        message: unmatched_message(compatible),
        formatted: None,
    }
}

/// Build the record for a byte-decode error.
pub fn decode_diagnostic(filename: &str, message: &str) -> (r: Diagnostic)
    ensures
        match r {
            Diagnostic::Decode { level, file, line, column, message: m } => {
                &&& level == DiagnosticLevel::Error
                &&& shown_as(file@, filename@)
                &&& line is None
                &&& column is None
                &&& m@ == message@
            },
            _ => false,
        },
{
    Diagnostic::Decode {
        level: DiagnosticLevel::Error,
        file: display_path(filename),
        line: None,
        column: None,
        message: message.to_owned(),
    }
}

/// `d[k]` as a string, or empty when it is absent or not a string.
pub open spec fn member_text(d: Json, k: Seq<char>) -> Seq<char> {
    match d.get_str(k) {
        Some(s) => s,
        None => Seq::empty(),
    }
}

/// The stderr line for a diagnostic record: `formatted` if present, else a
/// type-specific fallback.
pub open spec fn record_line(d: Json) -> Seq<char> {
    match d.get_str("formatted"@) {
        Some(f) => f,
        None => if d.get_str("type"@) == Some("unmatched"@) {
            member_text(d, "file"@) + ": "@ + member_text(d, "node"@) + ": "@ + member_text(d, "message"@)
        } else {
            member_text(d, "message"@)
        },
    }
}

fn member_str(d: &Value, k: &str) -> (r: String)
    ensures
        r@ == member_text(d@, k@),
{
    match d.get_str(k) {
        Some(s) => s.to_owned(),
        None => String::new(),
    }
}

/// Return the stderr line for a diagnostic record.
pub fn diagnostic_text(d: &Value) -> (r: String)
    ensures
        r@ == record_line(d@),
{
    if let Some(f) = d.get_str("formatted") {
        return f.to_owned();
    }
    let is_unmatched = match d.get_str("type") {
        Some(t) => str_eq(t, "unmatched"),
        None => false,
    };
    if is_unmatched {
        let mut s = member_str(d, "file");
        push_str(&mut s, ": ");
        let n = member_str(d, "node");
        push_str(&mut s, n.as_str());
        push_str(&mut s, ": ");
        let m = member_str(d, "message");
        push_str(&mut s, m.as_str());
        s
    } else {
        member_str(d, "message")
    }
}

} // verus!

verus! {

/// Reading `q` past an entry written for another key.
proof fn lemma_get_past(m: Entries, k: Seq<char>, v: Json, q: Seq<char>)
    requires
        q != k,
    ensures
        obj_get(obj_insert(m, k, v), q) == obj_get(m, q),
{
    crate::json::lemma_insert_get_other(m, k, v, q);
}

/// The keys of a diagnostic record, told apart.
proof fn lemma_record_keys()
    ensures
        "formatted"@ != "type"@, "formatted"@ != "level"@, "formatted"@ != "file"@,
        "formatted"@ != "line"@, "formatted"@ != "column"@, "formatted"@ != "node"@,
        "formatted"@ != "nodename"@, "formatted"@ != "compatible"@, "formatted"@ != "property_path"@,
        "formatted"@ != "schema_path"@, "formatted"@ != "schema"@, "formatted"@ != "message"@,
        "type"@ != "level"@, "type"@ != "file"@, "type"@ != "line"@, "type"@ != "column"@,
        "type"@ != "node"@, "type"@ != "nodename"@, "type"@ != "compatible"@, "type"@ != "message"@,
        "type"@ != "property_path"@, "type"@ != "schema_path"@, "type"@ != "schema"@,
        "file"@ != "line"@, "file"@ != "column"@, "file"@ != "node"@, "file"@ != "nodename"@,
        "file"@ != "compatible"@, "file"@ != "message"@,
        "node"@ != "nodename"@, "node"@ != "compatible"@, "node"@ != "message"@,
        "message"@ != "line"@, "message"@ != "column"@, "message"@ != "nodename"@, "message"@ != "compatible"@,
{
    reveal_strlit("formatted");
    reveal_strlit("type");
    reveal_strlit("level");
    reveal_strlit("file");
    reveal_strlit("line");
    reveal_strlit("column");
    reveal_strlit("node");
    reveal_strlit("nodename");
    reveal_strlit("compatible");
    reveal_strlit("property_path");
    reveal_strlit("schema_path");
    reveal_strlit("schema");
    reveal_strlit("message");
    assert("formatted"@.len() == 9);
    assert("type"@.len() == 4);
    assert("level"@.len() == 5);
    assert("file"@.len() == 4);
    assert("line"@.len() == 4);
    assert("column"@.len() == 6);
    assert("node"@.len() == 4);
    assert("nodename"@.len() == 8);
    assert("compatible"@.len() == 10);
    assert("property_path"@.len() == 13);
    assert("schema_path"@.len() == 11);
    assert("schema"@.len() == 6);
    assert("message"@.len() == 7);
    assert("type"@[0] != "file"@[0] && "type"@[0] != "line"@[0] && "type"@[0] != "node"@[0]);
    assert("file"@[0] != "line"@[0] && "file"@[0] != "node"@[0]);
    assert("schema"@[1] != "column"@[1]);
}

/// The text of a diagnostic's record is the diagnostic's own text: reading
/// the line back from the structured record gives what `text` gives.
pub proof fn lemma_record_text(d: Diagnostic)
    ensures
        record_line(diagnostic_json(d)) == diagnostic_line(d),
{
    lemma_record_keys();
    reveal_strlit("unmatched");
    reveal_strlit("validation");
    reveal_strlit("decode");
    assert("validation"@.len() == 10 && "unmatched"@.len() == 9 && "decode"@.len() == 6);
    let e = Seq::<(Seq<char>, Json)>::empty();
    assert(obj_get(e, "formatted"@) is None) by {
        crate::json::lemma_find_from(e, "formatted"@, 0);
    }
    match d {
        Diagnostic::Validation {
            level, file, line, column, node, nodename, compatible, property_path,
            schema_path, schema, message, formatted,
        } => {
            let m1 = obj_insert(e, "type"@, Json::Str("validation"@));
            let m2 = obj_insert(m1, "level"@, level_json(level));
            let m3 = obj_insert(m2, "file"@, Json::Str(file@));
            let m4 = obj_insert(m3, "line"@, opt_u64_json(line));
            let m5 = obj_insert(m4, "column"@, opt_u64_json(column));
            let m6 = obj_insert(m5, "node"@, opt_string_json(node));
            let m7 = obj_insert(m6, "nodename"@, opt_string_json(nodename));
            let m8 = obj_insert(m7, "compatible"@, opt_string_json(compatible));
            let m9 = obj_insert(m8, "property_path"@, property_path@);
            let m10 = obj_insert(m9, "schema_path"@, schema_path@);
            let m11 = obj_insert(m10, "schema"@, Json::Str(schema@));
            let m12 = obj_insert(m11, "message"@, Json::Str(message@));
            let q = "formatted"@;
            lemma_get_past(e, "type"@, Json::Str("validation"@), q);
            lemma_get_past(m1, "level"@, level_json(level), q);
            lemma_get_past(m2, "file"@, Json::Str(file@), q);
            lemma_get_past(m3, "line"@, opt_u64_json(line), q);
            lemma_get_past(m4, "column"@, opt_u64_json(column), q);
            lemma_get_past(m5, "node"@, opt_string_json(node), q);
            lemma_get_past(m6, "nodename"@, opt_string_json(nodename), q);
            lemma_get_past(m7, "compatible"@, opt_string_json(compatible), q);
            lemma_get_past(m8, "property_path"@, property_path@, q);
            lemma_get_past(m9, "schema_path"@, schema_path@, q);
            lemma_get_past(m10, "schema"@, Json::Str(schema@), q);
            lemma_get_past(m11, "message"@, Json::Str(message@), q);
            let t = "type"@;
            crate::json::lemma_insert_get(e, t, Json::Str("validation"@));
            lemma_get_past(m1, "level"@, level_json(level), t);
            lemma_get_past(m2, "file"@, Json::Str(file@), t);
            lemma_get_past(m3, "line"@, opt_u64_json(line), t);
            lemma_get_past(m4, "column"@, opt_u64_json(column), t);
            lemma_get_past(m5, "node"@, opt_string_json(node), t);
            lemma_get_past(m6, "nodename"@, opt_string_json(nodename), t);
            lemma_get_past(m7, "compatible"@, opt_string_json(compatible), t);
            lemma_get_past(m8, "property_path"@, property_path@, t);
            lemma_get_past(m9, "schema_path"@, schema_path@, t);
            lemma_get_past(m10, "schema"@, Json::Str(schema@), t);
            lemma_get_past(m11, "message"@, Json::Str(message@), t);
            crate::json::lemma_insert_get(m11, "message"@, Json::Str(message@));
            match formatted {
                Some(f) => {
                    crate::json::lemma_insert_get(m12, q, Json::Str(f@));
                },
                None => {
                    assert(Json::Object(m12).get_str("type"@) == Some("validation"@));
                },
            }
        },
        Diagnostic::Unmatched {
            level, file, line, column, node, nodename, compatible, message, formatted,
        } => {
            let m1 = obj_insert(e, "type"@, Json::Str("unmatched"@));
            let m2 = obj_insert(m1, "level"@, level_json(level));
            let m3 = obj_insert(m2, "file"@, Json::Str(file@));
            let m4 = obj_insert(m3, "line"@, opt_u64_json(line));
            let m5 = obj_insert(m4, "column"@, opt_u64_json(column));
            let m6 = obj_insert(m5, "node"@, Json::Str(node@));
            let m7 = obj_insert(m6, "nodename"@, Json::Str(nodename@));
            let m8 = obj_insert(m7, "compatible"@, strings_json(compatible@));
            let m9 = obj_insert(m8, "message"@, Json::Str(message@));
            let q = "formatted"@;
            lemma_get_past(e, "type"@, Json::Str("unmatched"@), q);
            lemma_get_past(m1, "level"@, level_json(level), q);
            lemma_get_past(m2, "file"@, Json::Str(file@), q);
            lemma_get_past(m3, "line"@, opt_u64_json(line), q);
            lemma_get_past(m4, "column"@, opt_u64_json(column), q);
            lemma_get_past(m5, "node"@, Json::Str(node@), q);
            lemma_get_past(m6, "nodename"@, Json::Str(nodename@), q);
            lemma_get_past(m7, "compatible"@, strings_json(compatible@), q);
            lemma_get_past(m8, "message"@, Json::Str(message@), q);
            let t = "type"@;
            crate::json::lemma_insert_get(e, t, Json::Str("unmatched"@));
            lemma_get_past(m1, "level"@, level_json(level), t);
            lemma_get_past(m2, "file"@, Json::Str(file@), t);
            lemma_get_past(m3, "line"@, opt_u64_json(line), t);
            lemma_get_past(m4, "column"@, opt_u64_json(column), t);
            lemma_get_past(m5, "node"@, Json::Str(node@), t);
            lemma_get_past(m6, "nodename"@, Json::Str(nodename@), t);
            lemma_get_past(m7, "compatible"@, strings_json(compatible@), t);
            lemma_get_past(m8, "message"@, Json::Str(message@), t);
            let fk = "file"@;
            crate::json::lemma_insert_get(m2, fk, Json::Str(file@));
            lemma_get_past(m3, "line"@, opt_u64_json(line), fk);
            lemma_get_past(m4, "column"@, opt_u64_json(column), fk);
            lemma_get_past(m5, "node"@, Json::Str(node@), fk);
            lemma_get_past(m6, "nodename"@, Json::Str(nodename@), fk);
            lemma_get_past(m7, "compatible"@, strings_json(compatible@), fk);
            lemma_get_past(m8, "message"@, Json::Str(message@), fk);
            let nk = "node"@;
            crate::json::lemma_insert_get(m5, nk, Json::Str(node@));
            lemma_get_past(m6, "nodename"@, Json::Str(nodename@), nk);
            lemma_get_past(m7, "compatible"@, strings_json(compatible@), nk);
            lemma_get_past(m8, "message"@, Json::Str(message@), nk);
            crate::json::lemma_insert_get(m8, "message"@, Json::Str(message@));
            match formatted {
                Some(f) => {
                    crate::json::lemma_insert_get(m9, q, Json::Str(f@));
                },
                None => {
                    assert(Json::Object(m9).get_str("type"@) == Some("unmatched"@));
                },
            }
        },
        Diagnostic::Decode { level, file, line, column, message } => {
            let m1 = obj_insert(e, "type"@, Json::Str("decode"@));
            let m2 = obj_insert(m1, "level"@, level_json(level));
            let m3 = obj_insert(m2, "file"@, Json::Str(file@));
            let m4 = obj_insert(m3, "line"@, opt_u64_json(line));
            let m5 = obj_insert(m4, "column"@, opt_u64_json(column));
            let q = "formatted"@;
            lemma_get_past(e, "type"@, Json::Str("decode"@), q);
            lemma_get_past(m1, "level"@, level_json(level), q);
            lemma_get_past(m2, "file"@, Json::Str(file@), q);
            lemma_get_past(m3, "line"@, opt_u64_json(line), q);
            lemma_get_past(m4, "column"@, opt_u64_json(column), q);
            lemma_get_past(m5, "message"@, Json::Str(message@), q);
            let t = "type"@;
            crate::json::lemma_insert_get(e, t, Json::Str("decode"@));
            lemma_get_past(m1, "level"@, level_json(level), t);
            lemma_get_past(m2, "file"@, Json::Str(file@), t);
            lemma_get_past(m3, "line"@, opt_u64_json(line), t);
            lemma_get_past(m4, "column"@, opt_u64_json(column), t);
            lemma_get_past(m5, "message"@, Json::Str(message@), t);
            crate::json::lemma_insert_get(m5, "message"@, Json::Str(message@));
        },
    }
}

} // verus!

verus! {

/// The path text of one segment is the segment followed by `:`.
pub proof fn lemma_path_text_single(s: PathSeg)
    ensures
        path_text(seq![s]) == seg_text(s) + ":"@,
{
    reveal_strlit(":");
    let p = seq![s];
    assert(p.len() == 1 && p.last() == s);
    assert(p.drop_last() =~= Seq::<PathSeg>::empty());
    assert(path_text(p.drop_last()) =~= Seq::<char>::empty());
    assert(path_text(p) == path_text(p.drop_last()) + seg_text(s).push(':'));
    assert(":"@ =~= seq![':']);
    assert(Seq::<char>::empty() + seg_text(s).push(':') =~= seg_text(s) + ":"@);
}

/// The path text of two paths one after the other is their texts one after
/// the other: with the single-segment law, every segment is written in order,
/// each followed by `:`.
pub proof fn lemma_path_text_concat(p: Seq<PathSeg>, q: Seq<PathSeg>)
    ensures
        path_text(p + q) == path_text(p) + path_text(q),
    decreases q.len(),
{
    if q.len() == 0 {
        assert(p + q =~= p);
    } else {
        lemma_path_text_concat(p, q.drop_last());
        assert((p + q).drop_last() =~= p + q.drop_last());
        assert((p + q).last() == q.last());
    }
}

/// An error with an instance path gives the line of the same error without
/// one, with the path text and a space put in directly before the message.
pub proof fn lemma_error_path_before_message(
    abs: Seq<char>,
    error: DtError,
    bare: DtError,
    nodename: Option<Seq<char>>,
    compatible: Option<Seq<char>>,
)
    requires
        error.instance_path@.len() > 0,
        bare.instance_path@.len() == 0,
        bare.message@ == error.message@,
        bare.schema_file@ == error.schema_file@,
    ensures
        exists|x: Seq<char>, y: Seq<char>| {
            &&& error_text(abs, error, nodename, compatible) == x + path_text(error.instance_path@) + " "@ + y
            &&& error_text(abs, bare, nodename, compatible) == x + y
            &&& seq_starts_with(y, error.message@)
        },
{
    let node = match nodename {
        Some(nn) => nn + match compatible {
            Some(c) => " ("@ + c + ")"@,
            None => Seq::empty(),
        } + ": "@,
        None => Seq::empty(),
    };
    let note = if error.schema_file@.len() > 0 {
        "\n\tfrom schema $id: "@ + error.schema_file@
    } else {
        Seq::empty()
    };
    let x = abs + ": "@ + node;
    let y = error.message@ + note;
    let pt = path_text(error.instance_path@);
    assert(error_text(abs, error, nodename, compatible) =~= x + pt + " "@ + y);
    assert(error_text(abs, bare, nodename, compatible) =~= x + y);
    assert(y.take(error.message@.len() as int) =~= error.message@);
}

} // verus!
