//! DTS examples of a binding: each example of the `examples` list wrapped in
//! a minimal device tree that `dtc` accepts, with a fake interrupt controller
//! where the example uses interrupts.
use vstd::prelude::*;
use crate::fixups::{re_is_match, re_matches};
use crate::json::{lemma_view_seq, view_seq, Json, Value};
use crate::strings::{chars_of, char_is_ws, dec_nat, dec_usize, is_ws, push_str, string_of, strings_view};
use crate::trusted::{regex_group1, regex_group1_result, regex_replace_all, regex_replace_all_result};

verus! {

/// Start of every example document.
pub const EXAMPLE_HEADER: &'static str = "\n/dts-v1/;\n/plugin/; // silence any missing phandle references\n";

/// Root node that wraps an example without a root node of its own.
pub const EXAMPLE_START: &'static str = "\n/{\n    compatible = \"foo\";\n    model = \"foo\";\n    #address-cells = <1>;\n    #size-cells = <1>;\n\n";

pub open spec fn example_header() -> Seq<char> {
    "\n/dts-v1/;\n/plugin/; // silence any missing phandle references\n"@
}

pub open spec fn example_start() -> Seq<char> {
    "\n/{\n    compatible = \"foo\";\n    model = \"foo\";\n    #address-cells = <1>;\n    #size-cells = <1>;\n\n"@
}

// ---- templates ------------------------------------------------------------------------

/// The fake interrupt controller of example `index`, with `cells` cells.
pub open spec fn interrupt_text(index: nat, cells: nat) -> Seq<char> {
    "\n        interrupt-parent = <&fake_intc"@ + dec_nat(index) + ">;\n        fake_intc"@ + dec_nat(
        index,
    ) + ": fake-interrupt-controller {\n            interrupt-controller;\n            #interrupt-cells = < "@
        + dec_nat(cells) + " >;\n        };\n"@
}

/// Example node `example_num`, holding the interrupt controller text and the
/// example.
pub open spec fn example_text(example_num: nat, interrupt: Seq<char>, example: Seq<char>) -> Seq<char> {
    "\n    example-"@ + dec_nat(example_num)
        + " {\n        #address-cells = <1>;\n        #size-cells = <1>;\n\n        "@ + interrupt
        + "\n\n        "@ + example + "\n    };\n};\n"@
}

/// The fake interrupt controller of an example.
pub fn interrupt_template(index: usize, int_cells: usize) -> (r: String)
    ensures
        r@ == interrupt_text(index as nat, int_cells as nat),
{
    let idx = dec_usize(index);
    let cells = dec_usize(int_cells);
    let mut s = String::new();
    push_str(&mut s, "\n        interrupt-parent = <&fake_intc");
    push_str(&mut s, idx.as_str());
    push_str(&mut s, ">;\n        fake_intc");
    push_str(&mut s, idx.as_str());
    push_str(
        &mut s,
        ": fake-interrupt-controller {\n            interrupt-controller;\n            #interrupt-cells = < ",
    );
    push_str(&mut s, cells.as_str());
    push_str(&mut s, " >;\n        };\n");
    assert(s@ =~= interrupt_text(index as nat, int_cells as nat));
    s
}

/// An example node.
pub fn example_template(example_num: usize, interrupt: &str, example: &str) -> (r: String)
    ensures
        r@ == example_text(example_num as nat, interrupt@, example@),
{
    let num = dec_usize(example_num);
    let mut s = String::new();
    push_str(&mut s, "\n    example-");
    push_str(&mut s, num.as_str());
    push_str(&mut s, " {\n        #address-cells = <1>;\n        #size-cells = <1>;\n\n        ");
    push_str(&mut s, interrupt);
    push_str(&mut s, "\n\n        ");
    push_str(&mut s, example);
    push_str(&mut s, "\n    };\n};\n");
    assert(s@ =~= example_text(example_num as nat, interrupt@, example@));
    s
}

// ---- lines -------------------------------------------------------------------------------

/// The lines of `s[start..]`, scanning from `i`, each with its terminator
/// (`\n`, `\r\n` or `\r`); a last line without one is kept.
pub open spec fn lines_from(s: Seq<char>, start: int, i: int) -> Seq<Seq<char>>
    decreases s.len() - i,
{
    if i < 0 || start < 0 || start > i || i >= s.len() {
        if 0 <= start < s.len() {
            seq![s.subrange(start, s.len() as int)]
        } else {
            Seq::empty()
        }
    } else if s[i] == '\n' {
        seq![s.subrange(start, i + 1)] + lines_from(s, i + 1, i + 1)
    } else if s[i] == '\r' {
        if i + 1 < s.len() && s[i + 1] == '\n' {
            seq![s.subrange(start, i + 2)] + lines_from(s, i + 2, i + 2)
        } else {
            seq![s.subrange(start, i + 1)] + lines_from(s, i + 1, i + 1)
        }
    } else {
        lines_from(s, start, i + 1)
    }
}

/// The lines of `s`, each with its terminator.
pub open spec fn lines_keepends(s: Seq<char>) -> Seq<Seq<char>> {
    lines_from(s, 0, 0)
}

/// Split lines keeping their terminators (`\n`, `\r\n`, `\r`).
pub fn splitlines_keepends(s: &str) -> (r: Vec<String>)
    ensures
        strings_view(r@) == lines_keepends(s@),
{
    let v = chars_of(s);
    let mut out: Vec<String> = Vec::new();
    let mut cur: Vec<char> = Vec::new();
    let ghost mut start: int = 0;
    let mut i: usize = 0;
    assert(strings_view(out@) + lines_from(s@, 0, 0) =~= lines_keepends(s@));
    assert(cur@ =~= s@.subrange(0, 0));
    while i < v.len()
        invariant
            v@ == s@,
            0 <= start <= i <= v@.len(),
            cur@ == s@.subrange(start, i as int),
            strings_view(out@) + lines_from(s@, start, i as int) == lines_keepends(s@),
        decreases v.len() - i,
    {
        let ghost before = strings_view(out@);
        let c = v[i];
        if c == '\n' {
            cur.push(c);
            assert(cur@ =~= s@.subrange(start, i + 1));
            let line = string_of(cur.as_slice());
            out.push(line);
            assert(strings_view(out@) =~= before.push(s@.subrange(start, i + 1)));
            assert(strings_view(out@) + lines_from(s@, i + 1, i + 1) =~= before + lines_from(s@, start, i as int));
            i += 1;
            proof {
                start = i as int;
            }
            cur = Vec::new();
            assert(cur@ =~= s@.subrange(start, i as int));
        } else if c == '\r' {
            cur.push(c);
            if i + 1 < v.len() && v[i + 1] == '\n' {
                cur.push('\n');
                assert(cur@ =~= s@.subrange(start, i + 2));
                let line = string_of(cur.as_slice());
                out.push(line);
                assert(strings_view(out@) =~= before.push(s@.subrange(start, i + 2)));
                assert(strings_view(out@) + lines_from(s@, i + 2, i + 2) =~= before + lines_from(s@, start, i as int));
                i += 2;
            } else {
                assert(cur@ =~= s@.subrange(start, i + 1));
                let line = string_of(cur.as_slice());
                out.push(line);
                assert(strings_view(out@) =~= before.push(s@.subrange(start, i + 1)));
                assert(strings_view(out@) + lines_from(s@, i + 1, i + 1) =~= before + lines_from(s@, start, i as int));
                i += 1;
            }
            proof {
                start = i as int;
            }
            cur = Vec::new();
            assert(cur@ =~= s@.subrange(start, i as int));
        } else {
            cur.push(c);
            i += 1;
            assert(cur@ =~= s@.subrange(start, i as int));
        }
    }
    if cur.len() > 0 {
        let ghost before = strings_view(out@);
        out.push(string_of(cur.as_slice()));
        assert(strings_view(out@) =~= before + lines_from(s@, start, i as int));
    } else {
        assert(strings_view(out@) =~= strings_view(out@) + lines_from(s@, start, i as int));
    }
    out
}

/// The lines put back together.
pub open spec fn concat_lines(lines: Seq<Seq<char>>) -> Seq<char>
    decreases lines.len(),
{
    if lines.len() == 0 {
        Seq::empty()
    } else {
        concat_lines(lines.drop_last()) + lines.last()
    }
}

proof fn lemma_concat_lines_prepend(x: Seq<char>, rest: Seq<Seq<char>>)
    ensures
        concat_lines(seq![x] + rest) == x + concat_lines(rest),
    decreases rest.len(),
{
    if rest.len() == 0 {
        assert(seq![x] + rest =~= seq![x]);
        assert(seq![x].drop_last() =~= Seq::<Seq<char>>::empty());
        assert(concat_lines(Seq::<Seq<char>>::empty()) == Seq::<char>::empty());
        assert(concat_lines(seq![x]) == concat_lines(seq![x].drop_last()) + seq![x].last());
        assert(Seq::<char>::empty() + x =~= x);
        assert(x + Seq::<char>::empty() =~= x);
    } else {
        lemma_concat_lines_prepend(x, rest.drop_last());
        assert((seq![x] + rest).drop_last() =~= seq![x] + rest.drop_last());
        assert((seq![x] + rest).last() == rest.last());
        assert(x + concat_lines(rest.drop_last()) + rest.last() =~= x + (concat_lines(rest.drop_last()) + rest.last()));
    }
}

proof fn lemma_lines_from_concat(s: Seq<char>, start: int, i: int)
    requires
        0 <= start <= i <= s.len(),
    ensures
        concat_lines(lines_from(s, start, i)) == s.subrange(start, s.len() as int),
        forall|j: int| 0 <= j < lines_from(s, start, i).len() ==> #[trigger] lines_from(s, start, i)[j].len() > 0,
    decreases s.len() - i,
{
    if i >= s.len() {
        if start < s.len() {
            let l = s.subrange(start, s.len() as int);
            assert(seq![l].drop_last() =~= Seq::<Seq<char>>::empty());
            assert(concat_lines(Seq::<Seq<char>>::empty()) == Seq::<char>::empty());
            assert(concat_lines(seq![l]) == concat_lines(seq![l].drop_last()) + seq![l].last());
            assert(Seq::<char>::empty() + l =~= l);
        } else {
            assert(s.subrange(start, s.len() as int) =~= Seq::<char>::empty());
        }
    } else {
        let e = if s[i] == '\n' {
            i + 1
        } else if s[i] == '\r' && i + 1 < s.len() && s[i + 1] == '\n' {
            i + 2
        } else if s[i] == '\r' {
            i + 1
        } else {
            -1
        };
        if e < 0 {
            lemma_lines_from_concat(s, start, i + 1);
        } else {
            lemma_lines_from_concat(s, e, e);
            let first = s.subrange(start, e);
            lemma_concat_lines_prepend(first, lines_from(s, e, e));
            assert(first + s.subrange(e, s.len() as int) =~= s.subrange(start, s.len() as int));
            let r = seq![first] + lines_from(s, e, e);
            assert forall|j: int| 0 <= j < r.len() implies #[trigger] r[j].len() > 0 by {
                if j > 0 {
                    assert(r[j] == lines_from(s, e, e)[j - 1]);
                }
            }
        }
    }
}

/// The lines, put back together, are the text: no character is lost or
/// added, and no line is empty.
pub proof fn lemma_lines_keepends(s: Seq<char>)
    ensures
        concat_lines(lines_keepends(s)) == s,
        forall|j: int| 0 <= j < lines_keepends(s).len() ==> #[trigger] lines_keepends(s)[j].len() > 0,
{
    lemma_lines_from_concat(s, 0, 0);
    assert(s.subrange(0, s.len() as int) =~= s);
}

// ---- interrupt cells -----------------------------------------------------------------

/// An `interrupts = <...>` property in an example.
pub open spec fn interrupts_pattern() -> Seq<char> {
    "\\sinterrupts\\s*=\\s*<([0-9a-zA-Z |()_]+)>"@
}

/// A parenthesised expression in a cell list, counted as one cell.
pub open spec fn paren_pattern() -> Seq<char> {
    "\\(.+|\\)"@
}

/// An example that has its own root node.
pub open spec fn root_pattern() -> Seq<char> {
    "/\\s*\\{"@
}

/// Number of whitespace-separated words of `s`.
pub open spec fn word_count(s: Seq<char>) -> nat
    decreases s.len(),
{
    if s.len() == 0 {
        0
    } else {
        let starts = !is_ws(s.last()) && (s.len() == 1 || is_ws(s[s.len() - 2]));
        word_count(s.drop_last()) + if starts {
            1nat
        } else {
            0nat
        }
    }
}

/// The number of cells of the first `interrupts` property of an example; 0
/// where there is none.
pub open spec fn int_cells(ex: Seq<char>) -> nat {
    match regex_group1_result(interrupts_pattern(), ex) {
        Some(Some(v)) => match regex_replace_all_result(paren_pattern(), v, "0"@) {
            Some(r) => word_count(r),
            None => 0,
        },
        _ => 0,
    }
}

fn word_count_exec(s: &str) -> (r: usize)
    ensures
        r as nat == word_count(s@),
{
    let v = chars_of(s);
    let mut n: usize = 0;
    let mut i: usize = 0;
    assert(s@.take(0) =~= Seq::<char>::empty());
    while i < v.len()
        invariant
            v@ == s@,
            i <= v@.len(),
            n as nat == word_count(s@.take(i as int)),
            n <= i,
        decreases v.len() - i,
    {
        let starts = !char_is_ws(v[i]) && (i == 0 || char_is_ws(v[i - 1]));
        assert(s@.take(i + 1).drop_last() =~= s@.take(i as int));
        if starts {
            n += 1;
        }
        i += 1;
    }
    assert(s@.take(i as int) =~= s@);
    n
}

/// The number of interrupt cells an example uses.
pub fn interrupt_cells(ex: &str) -> (r: usize)
    ensures
        r as nat == int_cells(ex@),
{
    match regex_group1(
        "\\sinterrupts\\s*=\\s*<([0-9a-zA-Z |()_]+)>",
        ex,
    ) {
        Some(Some(v)) => match regex_replace_all("\\(.+|\\)", v.as_str(), "0") {
            Some(r) => word_count_exec(r.as_str()),
            None => 0,
        },
        _ => 0,
    }
}

// ---- documents ------------------------------------------------------------------------

/// `lines` joined with `sep` between them.
pub open spec fn join(lines: Seq<Seq<char>>, sep: Seq<char>) -> Seq<char>
    decreases lines.len(),
{
    if lines.len() == 0 {
        Seq::empty()
    } else if lines.len() == 1 {
        lines[0]
    } else {
        join(lines.drop_last(), sep) + sep + lines.last()
    }
}

fn join_exec(lines: &Vec<String>, sep: &str) -> (r: String)
    ensures
        r@ == join(strings_view(lines@), sep@),
{
    let ghost lv = strings_view(lines@);
    let mut s = String::new();
    let mut i: usize = 0;
    assert(s@ =~= join(lv.take(0), sep@));
    while i < lines.len()
        invariant
            i <= lines@.len(),
            lv == strings_view(lines@),
            lv.len() == lines@.len(),
            s@ == join(lv.take(i as int), sep@),
        decreases lines.len() - i,
    {
        if i > 0 {
            push_str(&mut s, sep);
        }
        push_str(&mut s, lines[i].as_str());
        assert(lv.take(i + 1).drop_last() =~= lv.take(i as int));
        assert(lv.take(i + 1).last() == lines@[i as int]@);
        if i == 0 {
            assert(lv.take(1)[0] == lines@[0]@);
        }
        i += 1;
        assert(s@ =~= join(lv.take(i as int), sep@));
    }
    assert(lv.take(i as int) =~= lv);
    s
}

/// The DTS text of example `idx`: an example with its own root node as it
/// is, any other wrapped in a root node, its lines indented, with a fake
/// interrupt controller where it uses interrupts.
pub open spec fn example_item(idx: nat, item: Json) -> Seq<char> {
    let ex = match item {
        Json::Str(s) => s,
        _ => Seq::empty(),
    };
    if re_matches(root_pattern(), ex) {
        ex
    } else {
        let cells = int_cells(ex);
        example_start() + example_text(
            idx,
            if cells > 0 {
                interrupt_text(idx, cells)
            } else {
                Seq::empty()
            },
            join(lines_keepends(ex), "        "@),
        )
    }
}

pub open spec fn examples_text(items: Seq<Json>) -> Seq<char>
    decreases items.len(),
{
    if items.len() == 0 {
        Seq::empty()
    } else {
        examples_text(items.drop_last()) + example_item((items.len() - 1) as nat, items.last())
    }
}

/// The DTS document of a binding's examples; `None` for a document that is no
/// object, which holds no examples.
pub open spec fn example_document(value: Json) -> Option<Seq<char>> {
    if !(value is Object) {
        None
    } else {
        Some(
            example_header() + match value.get("examples"@) {
                Some(Json::Array(items)) => examples_text(items),
                Some(_) => Seq::empty(),
                None => example_start() + "\n};"@,
            },
        )
    }
}

/// The DTS document of a binding's examples.
pub fn example_dts(value: &Value) -> (r: Option<String>)
    ensures
        crate::diagnostic::opt_string(r) == example_document(value@),
{
    if !value.is_object() {
        return None;
    }
    let mut out = EXAMPLE_HEADER.to_owned();
    let ghost head = out@;
    assert(head == example_header());
    match value.get("examples") {
        Some(Value::Array(items)) => {
            let ghost iv = view_seq(items@);
            proof {
                lemma_view_seq(items@);
            }
            let mut i: usize = 0;
            assert(out@ =~= head + examples_text(iv.take(0)));
            while i < items.len()
                invariant
                    i <= items@.len(),
                    iv == view_seq(items@),
                    iv.len() == items@.len(),
                    forall|j: int| 0 <= j < items@.len() ==> #[trigger] iv[j] == items@[j]@,
                    out@ == head + examples_text(iv.take(i as int)),
                decreases items.len() - i,
            {
                let ex = match &items[i] {
                    Value::Str(s) => s.as_str(),
                    _ => "",
                };
                assert(ex@ == match iv[i as int] {
                    Json::Str(s) => s,
                    _ => Seq::<char>::empty(),
                }) by {
                    reveal_strlit("");
                }
                if re_is_match("/\\s*\\{", ex) {
                    push_str(&mut out, ex);
                } else {
                    let cells = interrupt_cells(ex);
                    push_str(&mut out, EXAMPLE_START);
                    let lines = splitlines_keepends(ex);
                    let joined = join_exec(&lines, "        ");
                    let int_props = if cells > 0 {
                        interrupt_template(i, cells)
                    } else {
                        String::new()
                    };
                    let node = example_template(i, int_props.as_str(), joined.as_str());
                    push_str(&mut out, node.as_str());
                }
                assert(iv.take(i + 1).drop_last() =~= iv.take(i as int));
                assert(iv.take(i + 1).last() == iv[i as int]);
                i += 1;
                assert(out@ =~= head + examples_text(iv.take(i as int)));
            }
            assert(iv.take(i as int) =~= iv);
        },
        Some(_) => {
            assert(out@ =~= head + Seq::<char>::empty());
        },
        None => {
            push_str(&mut out, EXAMPLE_START);
            push_str(&mut out, "\n};");
        },
    }
    Some(out)
}

} // verus!
