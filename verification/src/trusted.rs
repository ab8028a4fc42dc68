//! The calls this library makes into std and into outside crates that have no
//! specification of their own. Each item here is believed, not proved: its doc
//! comment says what the contract claims of the function it calls.
use vstd::prelude::*;
use sha2::Digest;

verus! {

/// `String::push`: appends one character to the end of the string.
#[verifier::external_body]
pub(crate) fn push_char(s: &mut String, c: char)
    ensures
        final(s)@ == old(s)@.push(c),
{
    s.push(c);
}

} // verus!

verus! {

/// What `std::path::absolute` gives for `path`, as text, when the current
/// directory is `cwd`: the path made absolute, with `cwd` as the base of a
/// relative path.
pub uninterp spec fn path_absolute_in(cwd: Seq<char>, path: Seq<char>) -> Seq<char>;

/// `std::path::absolute`, rendered as text. Its documentation says: an empty
/// path is refused; a relative path is made absolute with the current
/// directory as its base, so the result is [`path_absolute_in`] of the
/// current directory (itself absolute) and the path; an absolute path does
/// not use the current directory; the call fails only on an empty path or
/// when the current directory cannot be read, so a non-empty absolute path
/// always succeeds. What it returns is an absolute path, which on Unix
/// starts at the root `/`. Which directory is current, and whether it can be
/// read, is not stated.
#[verifier::external_body]
pub(crate) fn path_absolute(p: &str) -> (r: Option<String>)
    ensures
        p@.len() == 0 ==> r is None,
        p@.len() > 0 && p@[0] == '/' ==> r is Some,
        r matches Some(a) ==> a@.len() > 0 && a@[0] == '/',
        r matches Some(a) ==> exists|cwd: Seq<char>|
            cwd.len() > 0 && cwd[0] == '/' && a@ == #[trigger] path_absolute_in(cwd, p@),
        r matches Some(a) ==> (p@.len() > 0 && p@[0] == '/' ==> forall|cwd: Seq<char>|
            a@ == #[trigger] path_absolute_in(cwd, p@)),
{
    std::path::absolute(p).ok().map(|b| b.to_string_lossy().into_owned())
}

/// What `Path::strip_prefix(path, base)` gives, as text: the components of
/// `path` after those of `base`, or `None` when `base` is not a component-wise
/// prefix of `path`.
pub uninterp spec fn path_strip_prefix_result(path: Seq<char>, base: Seq<char>) -> Option<Seq<char>>;

/// `Path::strip_prefix`; its result is named by [`path_strip_prefix_result`].
#[verifier::external_body]
pub(crate) fn path_strip_prefix(path: &str, base: &str) -> (r: Option<String>)
    ensures
        match r {
            Some(s) => path_strip_prefix_result(path@, base@) == Some(s@),
            None => path_strip_prefix_result(path@, base@) is None,
        },
{
    std::path::Path::new(path).strip_prefix(base).ok().map(|r| r.to_string_lossy().into_owned())
}

/// What `Path::file_name` gives, as text: the last normal component of the path.
pub uninterp spec fn path_file_name_result(path: Seq<char>) -> Option<Seq<char>>;

/// `Path::file_name`; its result is named by [`path_file_name_result`].
#[verifier::external_body]
pub(crate) fn path_file_name(path: &str) -> (r: Option<String>)
    ensures
        match r {
            Some(s) => path_file_name_result(path@) == Some(s@),
            None => path_file_name_result(path@) is None,
        },
{
    std::path::Path::new(path).file_name().map(|s| s.to_string_lossy().into_owned())
}

} // verus!

verus! {

/// A hexadecimal digit, in lower case.
pub open spec fn json_hex_digit(n: int) -> char {
    seq!['0', '1', '2', '3', '4', '5', '6', '7', '8', '9', 'a', 'b', 'c', 'd', 'e', 'f'][n]
}

/// How one character is written inside a JSON string literal: `"` and `\`
/// after a backslash, the control characters with a short escape as
/// `\b \t \n \f \r`, the other control characters below 0x20 as
/// `\u00XX` in lower-case hex, and every other character as it is.
pub open spec fn json_char_escape(c: char) -> Seq<char> {
    if c == '"' {
        seq!['\\', '"']
    } else if c == '\\' {
        seq!['\\', '\\']
    } else if c == '\u{8}' {
        seq!['\\', 'b']
    } else if c == '\t' {
        seq!['\\', 't']
    } else if c == '\n' {
        seq!['\\', 'n']
    } else if c == '\u{c}' {
        seq!['\\', 'f']
    } else if c == '\r' {
        seq!['\\', 'r']
    } else if (c as int) < 0x20 {
        seq!['\\', 'u', '0', '0', json_hex_digit((c as int) / 16), json_hex_digit((c as int) % 16)]
    } else {
        seq![c]
    }
}

/// The characters of a string, each as written inside a JSON string literal.
pub open spec fn json_escaped(s: Seq<char>) -> Seq<char>
    decreases s.len(),
{
    if s.len() == 0 {
        Seq::empty()
    } else {
        json_escaped(s.drop_last()) + json_char_escape(s.last())
    }
}

/// The JSON string literal that `serde_json::to_string` writes for a string:
/// the escaped text between double quotes.
pub open spec fn json_string_literal(s: Seq<char>) -> Seq<char> {
    seq!['"'] + json_escaped(s) + seq!['"']
}

/// `serde_json::to_string` on a string slice. Serializing a `&str` cannot fail,
/// so the `Err` arm is never taken; it yields an empty string.
#[verifier::external_body]
pub(crate) fn json_quote(s: &str) -> (r: String)
    ensures
        r@ == json_string_literal(s@),
{
    match serde_json::to_string(s) {
        Ok(t) => t,
        Err(_) => String::new(),
    }
}

} // verus!

verus! {

/// What `regex::Regex::new(pattern)` followed by `Regex::is_match(text)` gives:
/// `None` when the pattern does not compile, else whether the expression
/// matches somewhere in `text`.
pub uninterp spec fn regex_match_result(pattern: Seq<char>, text: Seq<char>) -> Option<bool>;

/// Compiles `pattern` with `regex::Regex::new` and tests `text` with
/// `Regex::is_match`; the result is named by [`regex_match_result`].
#[verifier::external_body]
pub(crate) fn regex_is_match(pattern: &str, text: &str) -> (r: Option<bool>)
    ensures
        r == regex_match_result(pattern@, text@),
{
    match regex::Regex::new(pattern) {
        Ok(re) => Some(re.is_match(text)),
        Err(_) => None,
    }
}

/// What `regex::Regex::new(pattern)` followed by `Regex::find(text)` gives:
/// `None` when the pattern does not compile, else the leftmost-first match's
/// text, if any.
pub uninterp spec fn regex_find_result(pattern: Seq<char>, text: Seq<char>) -> Option<Option<Seq<char>>>;

/// Compiles `pattern` with `regex::Regex::new` and looks for the first match in
/// `text` with `Regex::find`; the result is named by [`regex_find_result`].
#[verifier::external_body]
pub(crate) fn regex_find(pattern: &str, text: &str) -> (r: Option<Option<String>>)
    ensures
        match r {
            None => regex_find_result(pattern@, text@) is None,
            Some(None) => regex_find_result(pattern@, text@) == Some(None::<Seq<char>>),
            Some(Some(m)) => regex_find_result(pattern@, text@) == Some(Some(m@)),
        },
{
    match regex::Regex::new(pattern) {
        Ok(re) => Some(re.find(text).map(|m| m.as_str().to_owned())),
        Err(_) => None,
    }
}

/// What `fancy_regex::Regex::new(pattern)` followed by `Regex::is_match(text)`
/// gives: `None` when the pattern does not compile or matching fails (such as
/// on the backtracking limit), else whether the expression matches in `text`.
pub uninterp spec fn fancy_match_result(pattern: Seq<char>, text: Seq<char>) -> Option<bool>;

/// Compiles `pattern` with `fancy_regex::Regex::new` and tests `text` with
/// `Regex::is_match`; the result is named by [`fancy_match_result`].
#[verifier::external_body]
pub(crate) fn fancy_is_match(pattern: &str, text: &str) -> (r: Option<bool>)
    ensures
        r == fancy_match_result(pattern@, text@),
{
    match fancy_regex::Regex::new(pattern) {
        Ok(re) => re.is_match(text).ok(),
        Err(_) => None,
    }
}

} // verus!

verus! {

/// The SHA-256 digest of a byte string, as `sha2::Sha256::digest` computes it.
pub uninterp spec fn sha256_of(data: Seq<u8>) -> Seq<u8>;

/// `sha2::Sha256::digest`: the digest of `data`, a function of the bytes
/// alone; the output size of `Sha256` is 32 bytes (`U32` in the crate).
#[verifier::external_body]
pub(crate) fn sha256_digest(data: &[u8]) -> (r: Vec<u8>)
    ensures
        r@ == sha256_of(data@),
        r@.len() == 32,
{
    sha2::Sha256::digest(data).to_vec()
}

} // verus!

verus! {

/// What `regex::Regex::new(pattern)` followed by `Regex::captures(text)` and
/// `Captures::get(1)` gives: `None` when the pattern does not compile, else
/// the text of group 1 of the leftmost-first match, when there is a match and
/// the group took part in it.
pub uninterp spec fn regex_group1_result(pattern: Seq<char>, text: Seq<char>) -> Option<Option<Seq<char>>>;

/// Compiles `pattern` with `regex::Regex::new`, finds the first match in `text`
/// with `Regex::captures` and takes its group 1; named by
/// [`regex_group1_result`].
#[verifier::external_body]
pub(crate) fn regex_group1(pattern: &str, text: &str) -> (r: Option<Option<String>>)
    ensures
        match r {
            None => regex_group1_result(pattern@, text@) is None,
            Some(None) => regex_group1_result(pattern@, text@) == Some(None::<Seq<char>>),
            Some(Some(g)) => regex_group1_result(pattern@, text@) == Some(Some(g@)),
        },
{
    match regex::Regex::new(pattern) {
        Ok(re) => Some(re.captures(text).and_then(|c| c.get(1)).map(|m| m.as_str().to_owned())),
        Err(_) => None,
    }
}

/// What `regex::Regex::new(pattern)` followed by `Regex::replace_all(text,
/// rep)` gives: `None` when the pattern does not compile, else `text` with
/// every non-overlapping match replaced by `rep` (whose `$` references name
/// groups).
pub uninterp spec fn regex_replace_all_result(pattern: Seq<char>, text: Seq<char>, rep: Seq<char>) -> Option<Seq<char>>;

/// Compiles `pattern` with `regex::Regex::new` and applies
/// `Regex::replace_all`; named by [`regex_replace_all_result`].
#[verifier::external_body]
pub(crate) fn regex_replace_all(pattern: &str, text: &str, rep: &str) -> (r: Option<String>)
    ensures
        match r {
            None => regex_replace_all_result(pattern@, text@, rep@) is None,
            Some(t) => regex_replace_all_result(pattern@, text@, rep@) == Some(t@),
        },
{
    match regex::Regex::new(pattern) {
        Ok(re) => Some(re.replace_all(text, rep).into_owned()),
        Err(_) => None,
    }
}

} // verus!

verus! {

/// What `jsonschema::draft201909::meta::validate` gives for the document that
/// `serde_json::from_str` reads from `text`: `None` when the text is no JSON
/// document, `Some(Ok(()))` when the document is a valid Draft 2019-09
/// schema, else the instance path (JSON pointer text) of the first error the
/// crate documents it to return.
pub uninterp spec fn draft201909_check_result(text: Seq<char>) -> Option<Result<(), Seq<char>>>;

/// Parses `text` with `serde_json::from_str` and checks the document against
/// the Draft 2019-09 meta-schema with `jsonschema::draft201909::meta::validate`,
/// which returns the first error found; named by
/// [`draft201909_check_result`]. The meta-schema validator is built once from
/// the crate's bundled meta-schema.
#[verifier::external_body]
pub(crate) fn draft201909_check(text: &str) -> (r: Option<Result<(), String>>)
    ensures
        match r {
            None => draft201909_check_result(text@) is None,
            Some(Ok(())) => draft201909_check_result(text@) == Some(Ok::<(), Seq<char>>(())),
            Some(Err(p)) => draft201909_check_result(text@) == Some(Err::<(), Seq<char>>(p@)),
        },
{
    match serde_json::from_str::<serde_json::Value>(text) {
        Ok(v) => Some(jsonschema::draft201909::meta::validate(&v).map_err(|e| e.instance_path().to_string())),
        Err(_) => None,
    }
}

} // verus!
