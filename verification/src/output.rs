//! The output writer: renders a configuration either as TOML text or as
//! Rust constant declarations.
use vstd::prelude::*;

use crate::config::{Config, ConfigItem};
use crate::text::push_char;
use crate::ty::{lit_string, rust_ty_text, ty_known, ty_text, ConfigType, TyModel};
use crate::value::{infer_spec, toml_text, CfgValModel, ValModel};
use crate::{ConfigErr, ConfigResult};

verus! {

broadcast use
    vstd::std_specs::vec::group_vec_axioms,
    vstd::seq::group_seq_axioms,
    vstd::string::group_string_axioms;

/// The format of the generated text.
#[derive(Debug, Clone, Copy, PartialEq, Eq, Structural)]
pub enum OutputFormat {
    /// TOML configuration text.
    Toml,
    /// Rust constant declarations.
    Rust,
}

impl OutputFormat {
    /// The name of the format.
    pub fn name(&self) -> (r: String)
        ensures
            *self is Toml ==> r@ == "toml"@,
            *self is Rust ==> r@ == "rust"@,
    {
        match self {
            OutputFormat::Toml => lit_string("toml"),
            OutputFormat::Rust => lit_string("rust"),
        }
    }

    /// The format of the given name, if any.
    pub fn from_name(s: &str) -> (r: Option<OutputFormat>)
        ensures
            match r {
                Some(f) => (f is Toml <==> s@ == "toml"@) && (f is Rust <==> s@ == "rust"@),
                None => s@ != "toml"@ && s@ != "rust"@,
            },
    {
        proof {
            reveal_strlit("toml");
            reveal_strlit("rust");
            assert("toml"@[0] == 't' && "rust"@[0] == 'r');
            assert("toml"@ != "rust"@);
        }
        if crate::text::str_eq(s, "toml") {
            Some(OutputFormat::Toml)
        } else if crate::text::str_eq(s, "rust") {
            Some(OutputFormat::Rust)
        } else {
            None
        }
    }
}

/// A run of spaces.
pub open spec fn spaces(n: int) -> Seq<char>
    decreases n,
{
    if n <= 0 {
        Seq::empty()
    } else {
        spaces(n - 1).push(' ')
    }
}

/// The lines of a text: split at `\n`, each line freed of a trailing `\r`,
/// without a last empty line.
pub open spec fn lines_rec(s: Seq<char>, i: int, start: int, acc: Seq<Seq<char>>) -> Seq<Seq<char>>
    decreases s.len() - i,
{
    if i < 0 || start < 0 || start > i {
        acc
    } else if i >= s.len() {
        if start < s.len() {
            acc.push(strip_cr(s.subrange(start, s.len() as int)))
        } else {
            acc
        }
    } else if s[i] == '\n' {
        lines_rec(s, i + 1, i + 1, acc.push(strip_cr(s.subrange(start, i))))
    } else {
        lines_rec(s, i + 1, start, acc)
    }
}

/// A line without its trailing carriage return, if it has one.
pub open spec fn strip_cr(line: Seq<char>) -> Seq<char> {
    if line.len() > 0 && line[line.len() - 1] == '\r' {
        line.drop_last()
    } else {
        line
    }
}

/// The lines of a text.
pub open spec fn lines_of(s: Seq<char>) -> Seq<Seq<char>> {
    lines_rec(s, 0, 0, Seq::empty())
}

/// A line with its first `#` replaced by `///`.
pub open spec fn hash_to_doc(line: Seq<char>) -> Seq<char>
    decreases line.len(),
{
    if line.len() == 0 {
        Seq::empty()
    } else if line[0] == '#' {
        "///"@ + line.skip(1)
    } else {
        seq![line[0]] + hash_to_doc(line.skip(1))
    }
}

/// A comment block rendered as Rust doc comments: each line indented, its
/// first `#` replaced by `///`, and closed by a newline.
pub open spec fn doc_lines_text(lines: Seq<Seq<char>>, i: int, indent: int) -> Seq<char>
    decreases lines.len() - i,
{
    if i < 0 || i >= lines.len() {
        Seq::empty()
    } else {
        spaces(indent) + hash_to_doc(lines[i]) + seq!['\n'] + doc_lines_text(lines, i + 1, indent)
    }
}

/// The rendering of one item in TOML form: its comments verbatim, then
/// `key = value`, with the declared type, if any, as a trailing comment.
pub open spec fn item_toml_text(it: crate::config::ItemModel) -> Seq<char> {
    it.comments + it.key + " = "@ + toml_text(it.value.value) + match it.value.ty {
        Some(t) => "  # "@ + ty_text(t),
        None => Seq::empty(),
    }
}

/// The splitting of the lines of a text, with the positions mirrored by the
/// executable splitter.
#[verifier::loop_isolation(false)]
fn split_lines(s: &str) -> (r: Vec<String>)
    ensures
        Seq::new(r@.len(), |i: int| r@[i]@) == lines_of(s@),
{
    let chars = crate::text::str_to_chars(s);
    let n = chars.len();
    let mut out: Vec<String> = Vec::new();
    let mut start: usize = 0;
    let mut i: usize = 0;
    proof {
        assert(Seq::new(out@.len(), |k: int| out@[k]@) =~= Seq::<Seq<char>>::empty());
    }
    while i < n
        invariant
            start <= i <= n,
            n == s@.len(),
            chars@ == s@,
            lines_of(s@) == lines_rec(
                s@,
                i as int,
                start as int,
                Seq::new(out@.len(), |k: int| out@[k]@),
            ),
        decreases n - i,
    {
        if chars[i] == '\n' {
            let ghost pre = Seq::new(out@.len(), |k: int| out@[k]@);
            let line = line_string(&chars, start, i);
            out.push(line);
            proof {
                assert(Seq::new(out@.len(), |k: int| out@[k]@) =~= pre.push(
                    strip_cr(s@.subrange(start as int, i as int)),
                ));
            }
            start = i + 1;
        }
        i = i + 1;
    }
    if start < n {
        let ghost pre = Seq::new(out@.len(), |k: int| out@[k]@);
        let line = line_string(&chars, start, n);
        out.push(line);
        proof {
            assert(Seq::new(out@.len(), |k: int| out@[k]@) =~= pre.push(
                strip_cr(s@.subrange(start as int, n as int)),
            ));
        }
    }
    out
}

/// One line, copied out with a trailing carriage return removed.
fn line_string(chars: &Vec<char>, start: usize, end: usize) -> (r: String)
    requires
        start <= end <= chars@.len(),
    ensures
        r@ == strip_cr(chars@.subrange(start as int, end as int)),
{
    let mut hi = end;
    if hi > start && chars[hi - 1] == '\r' {
        hi = hi - 1;
        proof {
            assert(chars@.subrange(start as int, end as int).drop_last() =~= chars@.subrange(
                start as int,
                hi as int,
            ));
        }
    }
    let sub = crate::ty::subvec(chars, start, hi);
    crate::text::chars_to_string(&sub)
}

/// A line with its first `#` replaced by `///`.
#[verifier::loop_isolation(false)]
fn hash_to_doc_line(line: &str) -> (r: String)
    ensures
        r@ == hash_to_doc(line@),
{
    let chars = crate::text::str_to_chars(line);
    let n = chars.len();
    let mut out = String::new();
    let mut i: usize = 0;
    proof {
        assert(line@.skip(0) =~= line@);
        assert(out@ + hash_to_doc(line@.skip(0)) =~= hash_to_doc(line@));
    }
    while i < n
        invariant
            i <= n,
            n == line@.len(),
            chars@ == line@,
            hash_to_doc(line@) == out@ + hash_to_doc(line@.skip(i as int)),
        decreases n - i,
    {
        let c = chars[i];
        proof {
            assert(line@.skip(i as int)[0] == line@[i as int]);
            assert(line@.skip(i as int).skip(1) =~= line@.skip(i + 1));
        }
        if c == '#' {
            let rest = crate::ty::subvec(&chars, i + 1, n);
            let rest_s = crate::text::chars_to_string(&rest);
            let r = out.concat("///").concat(rest_s.as_str());
            proof {
                assert(line@.skip(i as int).skip(1) =~= line@.subrange(i + 1, line@.len() as int));
                assert(r@ =~= hash_to_doc(line@));
            }
            return r;
        }
        push_char(&mut out, c);
        proof {
            assert(out@ + hash_to_doc(line@.skip(i + 1)) =~= old_out_push(
                out@,
                hash_to_doc(line@.skip(i + 1)),
            ));
            assert(hash_to_doc(line@) =~= out@ + hash_to_doc(line@.skip(i + 1)));
        }
        i = i + 1;
    }
    proof {
        assert(line@.skip(n as int) =~= Seq::<char>::empty());
        assert(out@ + Seq::<char>::empty() =~= out@);
    }
    out
}

/// Helper for stating an appended sequence.
pub open spec fn old_out_push(a: Seq<char>, b: Seq<char>) -> Seq<char> {
    a + b
}

/// The output writer: accumulates the rendered text of one dump.
#[derive(Debug)]
pub struct Output {
    fmt: OutputFormat,
    indent: usize,
    result: String,
}

/// The model of an output writer.
pub struct OutputModel {
    /// The format rendered.
    pub fmt: OutputFormat,
    /// The current indentation width.
    pub indent: int,
    /// The text produced so far.
    pub result: Seq<char>,
}

impl View for Output {
    type V = OutputModel;

    closed spec fn view(&self) -> OutputModel {
        OutputModel { fmt: self.fmt, indent: self.indent as int, result: self.result@ }
    }
}

impl Output {
    /// Creates an empty writer for the given format.
    pub fn new(fmt: OutputFormat) -> (r: Output)
        ensures
            r@ == (OutputModel { fmt, indent: 0, result: Seq::empty() }),
    {
        Output { fmt, indent: 0, result: String::new() }
    }

    /// The text produced so far.
    pub fn result(&self) -> (r: &str)
        ensures
            r@ == self@.result,
    {
        self.result.as_str()
    }

    /// Appends one line: the current indentation, the text, and a newline.
    pub fn println(&mut self, s: &str)
        ensures
            final(self)@ == (OutputModel {
                result: old(self)@.result + spaces(old(self)@.indent) + s@ + seq!['\n'],
                ..old(self)@
            }),
    {
        let mut i: usize = 0;
        proof {
            assert(self@.result + spaces(0) =~= self@.result);
        }
        while i < self.indent
            invariant
                i <= self.indent,
                self.fmt == old(self).fmt,
                self.indent == old(self).indent,
                self.result@ == old(self)@.result + spaces(i as int),
            decreases self.indent - i,
        {
            push_char(&mut self.result, ' ');
            i = i + 1;
        }
        self.result.append(s);
        push_char(&mut self.result, '\n');
        proof {
            assert(final(self)@.result =~= old(self)@.result + spaces(old(self)@.indent) + s@
                + seq!['\n']);
        }
    }

    /// Appends one line of already-formatted text, as [`Self::println`].
    pub fn println_fmt(&mut self, s: &str)
        ensures
            final(self)@ == (OutputModel {
                result: old(self)@.result + spaces(old(self)@.indent) + s@ + seq!['\n'],
                ..old(self)@
            }),
    {
        self.println(s);
    }

    /// Opens a named table: in TOML form `[name]` under the table comments,
    /// in Rust form a `pub mod` block under the comments as doc comments,
    /// raising the indentation.
    pub fn table_begin(&mut self, name: &str, comments: &str)
        requires
            old(self)@.indent + 4 <= usize::MAX,
        ensures
            final(self)@.fmt == old(self)@.fmt,
            old(self)@.fmt is Toml ==> final(self)@ == (OutputModel {
                result: old(self)@.result + spaces(old(self)@.indent) + comments@ + "["@ + name@
                    + "]"@ + seq!['\n'],
                ..old(self)@
            }),
            old(self)@.fmt is Rust ==> final(self)@ == (OutputModel {
                fmt: old(self)@.fmt,
                indent: old(self)@.indent + 4,
                result: old(self)@.result + doc_lines_text(
                    lines_of(comments@),
                    0,
                    old(self)@.indent,
                ) + spaces(old(self)@.indent) + "pub mod "@ + mod_name_text(name@) + " {"@
                    + seq!['\n'],
            }),
    {
        match self.fmt {
            OutputFormat::Toml => {
                let line = lit_string(comments).concat("[").concat(name).concat("]");
                self.println(line.as_str());
                proof {
                    assert(final(self)@.result =~= old(self)@.result + spaces(old(self)@.indent)
                        + comments@ + "["@ + name@ + "]"@ + seq!['\n']);
                }
            },
            OutputFormat::Rust => {
                self.print_doc_lines(comments);
                let line = lit_string("pub mod ").concat(mod_name(name).as_str()).concat(" {");
                let ghost mid = self@.result;
                self.println(line.as_str());
                self.indent = self.indent + 4;
                proof {
                    assert(final(self)@.result =~= old(self)@.result + doc_lines_text(
                        lines_of(comments@),
                        0,
                        old(self)@.indent,
                    ) + spaces(old(self)@.indent) + "pub mod "@ + mod_name_text(name@) + " {"@
                        + seq!['\n']);
                }
            },
        }
    }

    /// Closes a named table: nothing in TOML form, the closing brace in
    /// Rust form, lowering the indentation.
    pub fn table_end(&mut self)
        requires
            old(self)@.fmt is Rust ==> old(self)@.indent >= 4,
        ensures
            final(self)@.fmt == old(self)@.fmt,
            old(self)@.fmt is Toml ==> final(self)@ == old(self)@,
            old(self)@.fmt is Rust ==> final(self)@ == (OutputModel {
                fmt: old(self)@.fmt,
                indent: old(self)@.indent - 4,
                result: old(self)@.result + spaces(old(self)@.indent - 4) + "}"@ + seq!['\n'],
            }),
    {
        match self.fmt {
            OutputFormat::Toml => {},
            OutputFormat::Rust => {
                self.indent = self.indent - 4;
                self.println("}");
            },
        }
    }

    /// Appends a comment block as indented doc-comment lines.
    fn print_doc_lines(&mut self, comments: &str)
        ensures
            final(self)@ == (OutputModel {
                result: old(self)@.result + doc_lines_text(
                    lines_of(comments@),
                    0,
                    old(self)@.indent,
                ),
                ..old(self)@
            }),
    {
        let lines = split_lines(comments);
        let ghost ls = lines_of(comments@);
        let mut i: usize = 0;
        proof {
            lemma_doc_lines_join(ls, 0, self@.indent);
            assert(old(self)@.result + doc_lines_prefix(ls, 0, self@.indent) =~= old(self)@.result);
        }
        while i < lines.len()
            invariant
                i <= lines@.len(),
                ls == Seq::new(lines@.len(), |k: int| lines@[k]@),
                self.fmt == old(self).fmt,
                self.indent == old(self).indent,
                self.result@ == old(self)@.result + doc_lines_prefix(ls, i as int, self@.indent),
            decreases lines@.len() - i,
        {
            let t = hash_to_doc_line(lines[i].as_str());
            self.println(t.as_str());
            proof {
                assert(self.result@ =~= old(self)@.result + doc_lines_prefix(
                    ls,
                    i + 1,
                    self@.indent,
                ));
            }
            i = i + 1;
        }
        proof {
            lemma_doc_lines_join(ls, ls.len() as int, self@.indent);
            assert(self.result@ =~= old(self)@.result + doc_lines_text(ls, 0, self@.indent));
        }
    }
}

/// The first `i` doc-comment lines, rendered.
pub open spec fn doc_lines_prefix(lines: Seq<Seq<char>>, i: int, indent: int) -> Seq<char>
    decreases i,
{
    if i <= 0 || i > lines.len() {
        Seq::empty()
    } else {
        doc_lines_prefix(lines, i - 1, indent) + spaces(indent) + hash_to_doc(lines[i - 1])
            + seq!['\n']
    }
}

proof fn lemma_doc_lines_join(lines: Seq<Seq<char>>, i: int, indent: int)
    requires
        0 <= i <= lines.len(),
    ensures
        doc_lines_prefix(lines, lines.len() as int, indent) == doc_lines_prefix(lines, i, indent)
            + doc_lines_text(lines, i, indent),
    decreases lines.len() - i,
{
    if i == lines.len() {
        assert(doc_lines_prefix(lines, i, indent) + Seq::<char>::empty() =~= doc_lines_prefix(
            lines,
            i,
            indent,
        ));
    } else {
        lemma_doc_lines_join(lines, i + 1, indent);
        assert(doc_lines_prefix(lines, i, indent) + (spaces(indent) + hash_to_doc(lines[i])
            + seq!['\n'] + doc_lines_text(lines, i + 1, indent)) =~= (doc_lines_prefix(
            lines,
            i,
            indent,
        ) + spaces(indent) + hash_to_doc(lines[i]) + seq!['\n']) + doc_lines_text(
            lines,
            i + 1,
            indent,
        ));
    }
}

/// A table name as a Rust module name: `-` becomes `_`.
pub open spec fn mod_name_text(s: Seq<char>) -> Seq<char> {
    s.map_values(|c: char| if c == '-' { '_' } else { c })
}

/// A key as a Rust constant name: ASCII letters upper-cased, `-` becomes
/// `_`.
pub open spec fn const_char(c: char) -> char {
    if c == '-' {
        '_'
    } else if 97 <= c as u32 <= 122 {
        ((c as u8) - 32) as char
    } else {
        c
    }
}

/// A key as a Rust constant name.
pub open spec fn const_name_text(s: Seq<char>) -> Seq<char> {
    s.map_values(|c: char| const_char(c))
}

/// Renders a table name as a Rust module name.
#[verifier::loop_isolation(false)]
pub fn mod_name(name: &str) -> (r: String)
    ensures
        r@ == mod_name_text(name@),
{
    let n: usize = name.unicode_len();
    let mut out = String::new();
    let mut i: usize = 0;
    while i < n
        invariant
            i <= n,
            n == name@.len(),
            out@ =~= mod_name_text(name@.subrange(0, i as int)),
        decreases n - i,
    {
        let c = name.get_char(i);
        if c == '-' {
            push_char(&mut out, '_');
        } else {
            push_char(&mut out, c);
        }
        proof {
            assert(out@ =~= mod_name_text(name@.subrange(0, i + 1)));
        }
        i = i + 1;
    }
    proof {
        assert(name@.subrange(0, n as int) =~= name@);
    }
    out
}

/// Renders a key as a Rust constant name.
#[verifier::loop_isolation(false)]
pub fn const_name(name: &str) -> (r: String)
    ensures
        r@ == const_name_text(name@),
{
    let n: usize = name.unicode_len();
    let mut out = String::new();
    let mut i: usize = 0;
    while i < n
        invariant
            i <= n,
            n == name@.len(),
            out@ =~= const_name_text(name@.subrange(0, i as int)),
        decreases n - i,
    {
        let c = name.get_char(i);
        let u: u32 = c as u32;
        if c == '-' {
            push_char(&mut out, '_');
        } else if 97 <= u && u <= 122 {
            push_char(&mut out, ((c as u8) - 32) as char);
        } else {
            push_char(&mut out, c);
        }
        proof {
            assert(out@ =~= const_name_text(name@.subrange(0, i + 1)));
        }
        i = i + 1;
    }
    proof {
        assert(name@.subrange(0, n as int) =~= name@);
    }
    out
}


/// The Rust rendering of a value at a type: numeric-looking strings at
/// integer types stand unquoted, arrays at tuple types become Rust tuples,
/// arrays at array types become slice literals.
pub open spec fn rust_val_text(v: ValModel, t: TyModel) -> Seq<char>
    decreases v, 1int,
{
    match v {
        ValModel::Bool(b) => if b {
            "true"@
        } else {
            "false"@
        },
        ValModel::Int(i) => crate::text::int_dec(i),
        ValModel::Str(s) => if t is Str {
            seq!['"'] + crate::value::esc_text(s) + seq!['"']
        } else {
            s
        },
        ValModel::Array(es) => {
            proof {
                assert(decreases_to!(v => es));
            }
            match t {
                TyModel::Tuple(ts) => "("@ + rust_zip_list(es, ts, 0) + ")"@,
                TyModel::Array(et) => "&["@ + rust_arr_list(es, *et, 0) + "]"@,
                _ => Seq::empty(),
            }
        },
        ValModel::Other => Seq::empty(),
    }
}

/// The Rust texts of array elements at tuple member types, joined by `, `.
pub open spec fn rust_zip_list(es: Seq<ValModel>, ts: Seq<TyModel>, i: int) -> Seq<char>
    decreases es, 0int, es.len() - i,
{
    if i < 0 || i >= es.len() || es.len() != ts.len() {
        Seq::empty()
    } else {
        proof {
            assert(decreases_to!(es => es[i]));
        }
        if i == es.len() - 1 {
            rust_val_text(es[i], ts[i])
        } else {
            rust_val_text(es[i], ts[i]) + ", "@ + rust_zip_list(es, ts, i + 1)
        }
    }
}

/// The Rust texts of array elements at one element type, joined by `, `.
pub open spec fn rust_arr_list(es: Seq<ValModel>, t: TyModel, i: int) -> Seq<char>
    decreases es, 0int, es.len() - i,
{
    if i < 0 || i >= es.len() {
        Seq::empty()
    } else {
        proof {
            assert(decreases_to!(es => es[i]));
        }
        if i == es.len() - 1 {
            rust_val_text(es[i], t)
        } else {
            rust_val_text(es[i], t) + ", "@ + rust_arr_list(es, t, i + 1)
        }
    }
}

/// The first `i` elements at tuple member types, rendered with separators.
pub open spec fn rust_zip_prefix(es: Seq<ValModel>, ts: Seq<TyModel>, i: int) -> Seq<char>
    decreases i,
{
    if i <= 0 || i > es.len() || es.len() != ts.len() {
        Seq::empty()
    } else if i == es.len() {
        rust_zip_prefix(es, ts, i - 1) + rust_val_text(es[i - 1], ts[i - 1])
    } else {
        rust_zip_prefix(es, ts, i - 1) + rust_val_text(es[i - 1], ts[i - 1]) + ", "@
    }
}

proof fn lemma_rust_zip_join(es: Seq<ValModel>, ts: Seq<TyModel>, i: int)
    requires
        0 <= i <= es.len(),
        es.len() == ts.len(),
    ensures
        rust_zip_prefix(es, ts, es.len() as int) == rust_zip_prefix(es, ts, i) + rust_zip_list(
            es,
            ts,
            i,
        ),
    decreases es.len() - i,
{
    if i == es.len() {
        assert(rust_zip_prefix(es, ts, i) + Seq::<char>::empty() =~= rust_zip_prefix(es, ts, i));
    } else if i == es.len() - 1 {
        lemma_rust_zip_join(es, ts, i + 1);
        assert(rust_zip_prefix(es, ts, i) + rust_zip_list(es, ts, i) =~= rust_zip_prefix(
            es,
            ts,
            i + 1,
        ) + rust_zip_list(es, ts, i + 1));
    } else {
        lemma_rust_zip_join(es, ts, i + 1);
        assert(rust_zip_prefix(es, ts, i) + (rust_val_text(es[i], ts[i]) + ", "@ + rust_zip_list(
            es,
            ts,
            i + 1,
        )) =~= (rust_zip_prefix(es, ts, i) + rust_val_text(es[i], ts[i]) + ", "@) + rust_zip_list(
            es,
            ts,
            i + 1,
        ));
    }
}

/// The first `i` elements at one element type, rendered with separators.
pub open spec fn rust_arr_prefix(es: Seq<ValModel>, t: TyModel, i: int) -> Seq<char>
    decreases i,
{
    if i <= 0 || i > es.len() {
        Seq::empty()
    } else if i == es.len() {
        rust_arr_prefix(es, t, i - 1) + rust_val_text(es[i - 1], t)
    } else {
        rust_arr_prefix(es, t, i - 1) + rust_val_text(es[i - 1], t) + ", "@
    }
}

proof fn lemma_rust_arr_join(es: Seq<ValModel>, t: TyModel, i: int)
    requires
        0 <= i <= es.len(),
    ensures
        rust_arr_prefix(es, t, es.len() as int) == rust_arr_prefix(es, t, i) + rust_arr_list(
            es,
            t,
            i,
        ),
    decreases es.len() - i,
{
    if i == es.len() {
        assert(rust_arr_prefix(es, t, i) + Seq::<char>::empty() =~= rust_arr_prefix(es, t, i));
    } else if i == es.len() - 1 {
        lemma_rust_arr_join(es, t, i + 1);
        assert(rust_arr_prefix(es, t, i) + rust_arr_list(es, t, i) =~= rust_arr_prefix(
            es,
            t,
            i + 1,
        ) + rust_arr_list(es, t, i + 1));
    } else {
        lemma_rust_arr_join(es, t, i + 1);
        assert(rust_arr_prefix(es, t, i) + (rust_val_text(es[i], t) + ", "@ + rust_arr_list(
            es,
            t,
            i + 1,
        )) =~= (rust_arr_prefix(es, t, i) + rust_val_text(es[i], t) + ", "@) + rust_arr_list(
            es,
            t,
            i + 1,
        ));
    }
}

/// Renders a raw value as Rust source text at the given type.
#[verifier::loop_isolation(false)]
pub fn to_rust_value(v: &crate::value::RawValue, ty: &ConfigType) -> (r: String)
    ensures
        r@ == rust_val_text(v@, ty@),
    decreases *v,
{
    match v {
        crate::value::RawValue::Bool(b) => {
            if *b {
                lit_string("true")
            } else {
                lit_string("false")
            }
        },
        crate::value::RawValue::Int(i) => crate::text::i64_to_dec(*i),
        crate::value::RawValue::String(s) => {
            let quoted = match ty {
                ConfigType::String => true,
                _ => false,
            };
            if quoted {
                let mut out = String::new();
                push_char(&mut out, '"');
                proof {
                    assert(out@ =~= seq!['"']);
                }
                crate::value::escape_append(&mut out, s.as_str());
                push_char(&mut out, '"');
                proof {
                    assert(out@ =~= seq!['"'] + crate::value::esc_text(s@) + seq!['"']);
                }
                out
            } else {
                lit_string(s.as_str())
            }
        },
        crate::value::RawValue::Array(es) => {
            proof {
                crate::value::lemma_val_model_seq(es@);
            }
            match ty {
                ConfigType::Tuple(ts) => {
                    proof {
                        crate::ty::lemma_ty_model_seq(ts@);
                    }
                    if es.len() != ts.len() {
                        // A tuple of another width never renders; the callers
                        // rule this out by type matching.
                        let r = lit_string("(").concat(")");
                        proof {
                            assert(rust_zip_list(v@->Array_0, ty@->Tuple_0, 0) =~= Seq::<
                                char,
                            >::empty());
                            assert(r@ =~= "("@ + rust_zip_list(v@->Array_0, ty@->Tuple_0, 0)
                                + ")"@);
                        }
                        return r;
                    }
                    let mut out = lit_string("(");
                    let mut i: usize = 0;
                    while i < es.len()
                        invariant
                            i <= es@.len(),
                            es@.len() == ts@.len(),
                            out@ == "("@ + rust_zip_prefix(v@->Array_0, ty@->Tuple_0, i as int),
                        decreases es@.len() - i,
                    {
                        proof {
                            assert(decreases_to!(*v => *es));
                            assert(decreases_to!(*es => es@));
                            assert(decreases_to!(es@ => es@[i as int]));
                        }
                        let part = to_rust_value(&es[i], &ts[i]);
                        out = out.concat(part.as_str());
                        if i + 1 < es.len() {
                            out = out.concat(", ");
                        }
                        proof {
                            assert(out@ =~= "("@ + rust_zip_prefix(
                                v@->Array_0,
                                ty@->Tuple_0,
                                i + 1,
                            ));
                        }
                        i = i + 1;
                    }
                    proof {
                        lemma_rust_zip_join(v@->Array_0, ty@->Tuple_0, 0);
                        assert(rust_zip_prefix(v@->Array_0, ty@->Tuple_0, 0) + rust_zip_list(
                            v@->Array_0,
                            ty@->Tuple_0,
                            0,
                        ) =~= rust_zip_list(v@->Array_0, ty@->Tuple_0, 0));
                    }
                    let r = out.concat(")");
                    proof {
                        assert(r@ =~= "("@ + rust_zip_list(v@->Array_0, ty@->Tuple_0, 0) + ")"@);
                    }
                    r
                },
                ConfigType::Array(et) => {
                    let mut out = lit_string("&[");
                    let mut i: usize = 0;
                    while i < es.len()
                        invariant
                            i <= es@.len(),
                            out@ == "&["@ + rust_arr_prefix(v@->Array_0, *ty@->Array_0, i as int),
                        decreases es@.len() - i,
                    {
                        proof {
                            assert(decreases_to!(*v => *es));
                            assert(decreases_to!(*es => es@));
                            assert(decreases_to!(es@ => es@[i as int]));
                        }
                        let part = to_rust_value(&es[i], et);
                        out = out.concat(part.as_str());
                        if i + 1 < es.len() {
                            out = out.concat(", ");
                        }
                        proof {
                            assert(out@ =~= "&["@ + rust_arr_prefix(
                                v@->Array_0,
                                *ty@->Array_0,
                                i + 1,
                            ));
                        }
                        i = i + 1;
                    }
                    proof {
                        lemma_rust_arr_join(v@->Array_0, *ty@->Array_0, 0);
                        assert(rust_arr_prefix(v@->Array_0, *ty@->Array_0, 0) + rust_arr_list(
                            v@->Array_0,
                            *ty@->Array_0,
                            0,
                        ) =~= rust_arr_list(v@->Array_0, *ty@->Array_0, 0));
                    }
                    let r = out.concat("]");
                    proof {
                        assert(r@ =~= "&["@ + rust_arr_list(v@->Array_0, *ty@->Array_0, 0) + "]"@);
                    }
                    r
                },
                _ => {
                    let r = lit_string("");
                    proof {
                        reveal_strlit("");
                        assert(r@ =~= Seq::<char>::empty());
                    }
                    r
                },
            }
        },
        crate::value::RawValue::Other => {
            let r = lit_string("");
            proof {
                reveal_strlit("");
                assert(r@ =~= Seq::<char>::empty());
            }
            r
        },
    }
}

/// The type an item resolves to at render time: its declared type, or the
/// inferred type of its value.
pub open spec fn resolved_ty(v: CfgValModel) -> Option<TyModel> {
    match v.ty {
        Some(t) => Some(t),
        None => infer_spec(v.value),
    }
}

/// Whether an item can be rendered as a Rust constant: its type resolves,
/// and to a fully known type.
pub open spec fn item_renderable(v: CfgValModel) -> bool {
    resolved_ty(v) matches Some(t) && ty_known(t)
}

/// The rendering of one item as a Rust constant declaration (without the
/// comment block and indentation).
pub open spec fn item_rust_decl(it: crate::config::ItemModel) -> Seq<char> {
    "pub const "@ + const_name_text(it.key) + ": "@ + rust_ty_text(
        resolved_ty(it.value)->Some_0,
    ) + " = "@ + rust_val_text(it.value.value, resolved_ty(it.value)->Some_0) + ";"@
}

/// The whole rendering of one item, in either format.
pub open spec fn item_text(it: crate::config::ItemModel, fmt: OutputFormat, indent: int) -> Seq<
    char,
> {
    if fmt is Toml {
        spaces(indent) + item_toml_text(it) + seq!['\n']
    } else {
        doc_lines_text(lines_of(it.comments), 0, indent) + spaces(indent) + item_rust_decl(it)
            + seq!['\n']
    }
}

impl Output {
    /// Renders one configuration item: in TOML form its comments, key,
    /// value and declared type; in Rust form a documented constant
    /// declaration.  In Rust form an item whose type cannot be resolved to
    /// a known type is refused, and nothing is written.
    pub fn write_item(&mut self, item: &ConfigItem) -> (r: ConfigResult<()>)
        requires
            crate::value::cv_wf(item@.value),
        ensures
            final(self)@.fmt == old(self)@.fmt,
            final(self)@.indent == old(self)@.indent,
            match r {
                Ok(_) => {
                    &&& (old(self)@.fmt is Rust ==> item_renderable(item@.value))
                    &&& final(self)@.result == old(self)@.result + item_text(
                        item@,
                        old(self)@.fmt,
                        old(self)@.indent,
                    )
                },
                Err(e) => {
                    &&& final(self)@ == old(self)@
                    &&& old(self)@.fmt is Rust && !item_renderable(item@.value) && e is Other
                },
            },
    {
        match self.fmt {
            OutputFormat::Toml => {
                let mut line = lit_string(item.comments());
                line = line.concat(item.key()).concat(" = ");
                let vt = item.value().to_toml();
                line = line.concat(vt.as_str());
                match item.value().ty() {
                    Some(t) => {
                        let ts = t.to_annot_string();
                        line = line.concat("  # ").concat(ts.as_str());
                    },
                    None => {},
                }
                self.println(line.as_str());
                proof {
                    assert(final(self)@.result =~= old(self)@.result + item_text(
                        item@,
                        old(self)@.fmt,
                        old(self)@.indent,
                    ));
                }
                Ok(())
            },
            OutputFormat::Rust => {
                let rty = match item.value().ty() {
                    Some(t) => t.clone(),
                    None => {
                        let cloned = item.value().clone();
                        match cloned.inferred_type() {
                            Ok(t) => t,
                            Err(_) => {
                                return Err(ConfigErr::Other(lit_string(
                                    "no type can be resolved for the key",
                                )));
                            },
                        }
                    },
                };
                let unknown = match &rty {
                    ConfigType::Unknown => true,
                    _ => false,
                };
                if unknown {
                    return Err(ConfigErr::Other(lit_string("unknown type for the key")));
                }
                proof {
                    assert(resolved_ty(item@.value) == Some(rty@));
                    if item@.value.ty is None {
                        crate::value::lemma_infer_known(item@.value.value);
                    }
                    assert(ty_known(rty@));
                }
                self.print_doc_lines(item.comments());
                let mut line = lit_string("pub const ");
                let cn = const_name(item.key());
                line = line.concat(cn.as_str()).concat(": ");
                let tt = rty.to_rust_type();
                line = line.concat(tt.as_str()).concat(" = ");
                let vv = to_rust_value(item.value().raw(), &rty);
                line = line.concat(vv.as_str()).concat(";");
                self.println(line.as_str());
                proof {
                    assert(final(self)@.result =~= old(self)@.result + item_text(
                        item@,
                        old(self)@.fmt,
                        old(self)@.indent,
                    ));
                }
                Ok(())
            },
        }
    }
}


/// The renderings of the items from position `i` on, concatenated.
pub open spec fn items_out_text(
    items: Seq<crate::config::ItemModel>,
    i: int,
    fmt: OutputFormat,
    indent: int,
) -> Seq<char>
    decreases items.len() - i,
{
    if i < 0 || i >= items.len() {
        Seq::empty()
    } else {
        item_text(items[i], fmt, indent) + items_out_text(items, i + 1, fmt, indent)
    }
}

/// The renderings of the first `i` items, concatenated.
pub open spec fn items_out_prefix(
    items: Seq<crate::config::ItemModel>,
    i: int,
    fmt: OutputFormat,
    indent: int,
) -> Seq<char>
    decreases i,
{
    if i <= 0 || i > items.len() {
        Seq::empty()
    } else {
        items_out_prefix(items, i - 1, fmt, indent) + item_text(items[i - 1], fmt, indent)
    }
}

proof fn lemma_items_out_join(
    items: Seq<crate::config::ItemModel>,
    i: int,
    fmt: OutputFormat,
    indent: int,
)
    requires
        0 <= i <= items.len(),
    ensures
        items_out_prefix(items, items.len() as int, fmt, indent) == items_out_prefix(
            items,
            i,
            fmt,
            indent,
        ) + items_out_text(items, i, fmt, indent),
    decreases items.len() - i,
{
    if i == items.len() {
        assert(items_out_prefix(items, i, fmt, indent) + Seq::<char>::empty()
            =~= items_out_prefix(items, i, fmt, indent));
    } else {
        lemma_items_out_join(items, i + 1, fmt, indent);
        assert(items_out_prefix(items, i, fmt, indent) + (item_text(items[i], fmt, indent)
            + items_out_text(items, i + 1, fmt, indent)) =~= (items_out_prefix(
            items,
            i,
            fmt,
            indent,
        ) + item_text(items[i], fmt, indent)) + items_out_text(items, i + 1, fmt, indent));
    }
}

/// The rendering of one named table with its items.
pub open spec fn table_out_text(t: crate::config::TableModel, fmt: OutputFormat) -> Seq<char> {
    if fmt is Toml {
        spaces(0) + t.comments + "["@ + t.name + "]"@ + seq!['\n'] + items_out_text(
            t.items,
            0,
            fmt,
            0,
        )
    } else {
        doc_lines_text(lines_of(t.comments), 0, 0) + spaces(0) + "pub mod "@ + mod_name_text(
            t.name,
        ) + " {"@ + seq!['\n'] + items_out_text(t.items, 0, fmt, 4) + spaces(0) + "}"@ + seq!['\n']
    }
}

/// The renderings of the tables from position `i` on, concatenated.
pub open spec fn tables_out_text(
    tables: Seq<crate::config::TableModel>,
    i: int,
    fmt: OutputFormat,
) -> Seq<char>
    decreases tables.len() - i,
{
    if i < 0 || i >= tables.len() {
        Seq::empty()
    } else {
        table_out_text(tables[i], fmt) + tables_out_text(tables, i + 1, fmt)
    }
}

/// The renderings of the first `i` tables, concatenated.
pub open spec fn tables_out_prefix(
    tables: Seq<crate::config::TableModel>,
    i: int,
    fmt: OutputFormat,
) -> Seq<char>
    decreases i,
{
    if i <= 0 || i > tables.len() {
        Seq::empty()
    } else {
        tables_out_prefix(tables, i - 1, fmt) + table_out_text(tables[i - 1], fmt)
    }
}

proof fn lemma_tables_out_join(tables: Seq<crate::config::TableModel>, i: int, fmt: OutputFormat)
    requires
        0 <= i <= tables.len(),
    ensures
        tables_out_prefix(tables, tables.len() as int, fmt) == tables_out_prefix(tables, i, fmt)
            + tables_out_text(tables, i, fmt),
    decreases tables.len() - i,
{
    if i == tables.len() {
        assert(tables_out_prefix(tables, i, fmt) + Seq::<char>::empty() =~= tables_out_prefix(
            tables,
            i,
            fmt,
        ));
    } else {
        lemma_tables_out_join(tables, i + 1, fmt);
        assert(tables_out_prefix(tables, i, fmt) + (table_out_text(tables[i], fmt)
            + tables_out_text(tables, i + 1, fmt)) =~= (tables_out_prefix(tables, i, fmt)
            + table_out_text(tables[i], fmt)) + tables_out_text(tables, i + 1, fmt));
    }
}

/// The whole rendering of a configuration: the global items, then each
/// named table.
pub open spec fn dump_text(m: crate::config::ConfigModel, fmt: OutputFormat) -> Seq<char> {
    items_out_text(m.global, 0, fmt, 0) + tables_out_text(m.tables, 0, fmt)
}

/// Whether every item of a configuration can be rendered in the given
/// format: in Rust form, every type must resolve to a known type.
pub open spec fn cfg_renderable(m: crate::config::ConfigModel, fmt: OutputFormat) -> bool {
    fmt is Rust ==> {
        &&& forall|i: int|
            0 <= i < m.global.len() ==> item_renderable((#[trigger] m.global[i]).value)
        &&& forall|ti: int, i: int|
            0 <= ti < m.tables.len() && 0 <= i < m.tables[ti].items.len() ==> item_renderable(
                (#[trigger] m.tables[ti].items[i]).value,
            )
    }
}

/// Renders the items of one table in order, stopping at the first item
/// that cannot be rendered.
#[verifier::loop_isolation(false)]
#[verifier::rlimit(60)]
fn dump_items(out: &mut Output, items: &Vec<ConfigItem>) -> (r: ConfigResult<()>)
    requires
        crate::config::items_wf(crate::config::imodel(items@)),
    ensures
        final(out)@.fmt == old(out)@.fmt,
        final(out)@.indent == old(out)@.indent,
        match r {
            Ok(_) => {
                &&& final(out)@.result == old(out)@.result + items_out_text(
                    crate::config::imodel(items@),
                    0,
                    old(out)@.fmt,
                    old(out)@.indent,
                )
                &&& old(out)@.fmt is Rust ==> forall|k: int|
                    0 <= k < crate::config::imodel(items@).len() ==> item_renderable(
                        (#[trigger] crate::config::imodel(items@)[k]).value,
                    )
            },
            Err(e) => {
                &&& old(out)@.fmt is Rust && e is Other
                &&& !(forall|k: int|
                    0 <= k < crate::config::imodel(items@).len() ==> item_renderable(
                        (#[trigger] crate::config::imodel(items@)[k]).value,
                    ))
            },
        },
{
    let ghost im = crate::config::imodel(items@);
    let ghost fmt = out@.fmt;
    let ghost ind = out@.indent;
    let mut i: usize = 0;
    proof {
        assert(out@.result + items_out_prefix(im, 0, fmt, ind) =~= out@.result);
    }
    while i < items.len()
        invariant
            i <= items@.len(),
            im == crate::config::imodel(items@),
            out@.fmt == fmt,
            out@.indent == ind,
            out@.result == old(out)@.result + items_out_prefix(im, i as int, fmt, ind),
            fmt is Rust ==> forall|k: int|
                0 <= k < i ==> item_renderable((#[trigger] im[k]).value),
        decreases items@.len() - i,
    {
        proof {
            assert(im[i as int] == items@[i as int]@);
        }
        match out.write_item(&items[i]) {
            Ok(_) => {},
            Err(_) => {
                proof {
                    assert(!item_renderable(im[i as int].value));
                }
                return Err(ConfigErr::Other(lit_string("unknown type for a key")));
            },
        }
        proof {
            assert(out@.result =~= old(out)@.result + items_out_prefix(im, i + 1, fmt, ind));
        }
        i = i + 1;
    }
    proof {
        lemma_items_out_join(im, 0, fmt, ind);
        assert(old(out)@.result + (items_out_prefix(im, 0, fmt, ind) + items_out_text(
            im,
            0,
            fmt,
            ind,
        )) =~= old(out)@.result + items_out_text(im, 0, fmt, ind));
        assert(out@.result =~= old(out)@.result + items_out_text(im, 0, fmt, ind));
    }
    Ok(())
}

/// Renders one named table: its header, its items, and its closing.
#[verifier::loop_isolation(false)]
#[verifier::rlimit(60)]
fn dump_table(out: &mut Output, t: &crate::config::NamedTable) -> (r: ConfigResult<()>)
    requires
        crate::config::items_wf(t@.items),
        old(out)@.indent == 0,
    ensures
        final(out)@.fmt == old(out)@.fmt,
        match r {
            Ok(_) => {
                &&& final(out)@.indent == 0
                &&& final(out)@.result == old(out)@.result + table_out_text(t@, old(out)@.fmt)
                &&& old(out)@.fmt is Rust ==> forall|k: int|
                    0 <= k < t@.items.len() ==> item_renderable((#[trigger] t@.items[k]).value)
            },
            Err(e) => {
                &&& old(out)@.fmt is Rust && e is Other
                &&& !(forall|k: int|
                    0 <= k < t@.items.len() ==> item_renderable((#[trigger] t@.items[k]).value))
            },
        },
{
    out.table_begin(t.name(), t.comments());
    match dump_items(out, t.items()) {
        Ok(_) => {},
        Err(e) => {
            return Err(e);
        },
    }
    out.table_end();
    proof {
        assert(final(out)@.result =~= old(out)@.result + table_out_text(t@, old(out)@.fmt));
    }
    Ok(())
}

impl Config {
    /// Renders the whole configuration in the given format: the global
    /// items first, then every named table in name order.  In Rust form an
    /// item whose type cannot be resolved fails the whole dump.
    #[verifier::loop_isolation(false)]
    #[verifier::rlimit(60)]
    pub fn dump(&self, fmt: OutputFormat) -> (r: ConfigResult<String>)
        requires
            crate::config::cfg_wf(self@),
        ensures
            match r {
                Ok(s) => cfg_renderable(self@, fmt) && s@ == dump_text(self@, fmt),
                Err(e) => !cfg_renderable(self@, fmt) && e is Other && fmt is Rust,
            },
    {
        let mut out = Output::new(fmt);
        match dump_items(&mut out, self.global_table()) {
            Ok(_) => {},
            Err(e) => {
                return Err(e);
            },
        }
        let ts = self.tables();
        let mut ti: usize = 0;
        proof {
            assert(out@.result + tables_out_prefix(self@.tables, 0, fmt) =~= out@.result);
        }
        while ti < ts.len()
            invariant
                ti <= ts@.len(),
                crate::config::tmodel(ts@) == self@.tables,
                crate::config::cfg_wf(self@),
                out@.fmt == fmt,
                out@.indent == 0,
                out@.result == items_out_text(self@.global, 0, fmt, 0) + tables_out_prefix(
                    self@.tables,
                    ti as int,
                    fmt,
                ),
                fmt is Rust ==> forall|k: int|
                    0 <= k < self@.global.len() ==> item_renderable(
                        (#[trigger] self@.global[k]).value,
                    ),
                fmt is Rust ==> forall|tj: int, k: int|
                    0 <= tj < ti && 0 <= k < self@.tables[tj].items.len() ==> item_renderable(
                        (#[trigger] self@.tables[tj].items[k]).value,
                    ),
            decreases ts@.len() - ti,
        {
            let ghost tmv = self@.tables[ti as int];
            proof {
                assert(tmv == ts@[ti as int]@);
            }
            match dump_table(&mut out, &ts[ti]) {
                Ok(_) => {},
                Err(e) => {
                    return Err(e);
                },
            }
            proof {
                assert(out@.result =~= items_out_text(self@.global, 0, fmt, 0)
                    + tables_out_prefix(self@.tables, ti + 1, fmt));
            }
            ti = ti + 1;
        }
        proof {
            lemma_tables_out_join(self@.tables, 0, fmt);
            assert(tables_out_prefix(self@.tables, 0, fmt) + tables_out_text(self@.tables, 0, fmt)
                =~= tables_out_text(self@.tables, 0, fmt));
            assert(out@.result =~= dump_text(self@, fmt));
            assert(cfg_renderable(self@, fmt));
        }
        let s = lit_string(out.result());
        Ok(s)
    }
}

} // verus!
