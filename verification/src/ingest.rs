//! Ingestion: the boundary with the external TOML parser.
//!
//! The parser turns text into a generic value tree; nothing here parses TOML
//! syntax itself.  Each trusted declaration below names the `toml_edit` item
//! it relies on.  What a parse yields is given names ([`toml_parse_value`],
//! [`toml_parse_doc`]) that the rest of the library reasons with; the logic
//! that checks, types and stores the parsed values is ordinary verified code.
use vstd::prelude::*;

use crate::text::str_to_chars;
use crate::ty::{despace, parse_ty, ConfigType};
use crate::value::{
    matches_spec, val_valid, CfgValModel, ConfigValue, RawValue, ValModel,
};
use crate::config::{cfg_wf, find_item, find_table, lookup, Config, ConfigItem, ItemModel, GLOBAL_TABLE_NAME};
use crate::{ConfigErr, ConfigResult};

verus! {

broadcast use
    vstd::std_specs::vec::group_vec_axioms,
    vstd::seq::group_seq_axioms,
    vstd::string::group_string_axioms;

#[verifier::external_type_specification]
#[verifier::external_body]
pub struct ExTomlValue(toml_edit::Value);

#[verifier::external_type_specification]
#[verifier::external_body]
pub struct ExTomlDocument(toml_edit::DocumentMut);

/// The value tree a parsed `toml_edit::Value` holds.
pub uninterp spec fn toml_value_model(v: toml_edit::Value) -> ValModel;

/// What parsing a string as a TOML value yields, if it parses.
pub uninterp spec fn toml_parse_value(s: Seq<char>) -> Option<ValModel>;

/// A parsed item as the external parser hands it over: its key, the
/// documentation that precedes it, the raw trailing comment, and its value.
pub struct ItemSpec {
    pub key: Seq<char>,
    pub comments: Seq<char>,
    pub annot: Seq<char>,
    pub value: ValModel,
}

/// One top-level entry of a parsed document.
pub enum EntrySpec {
    /// A key/value pair of the global table.
    Item(ItemSpec),
    /// A named table; an inner entry is `None` where it is not a plain
    /// value (a nested table, an array of tables).
    Table { name: Seq<char>, comments: Seq<char>, items: Seq<Option<ItemSpec>> },
    /// A construct the configuration model does not support.
    Unsupported { key: Seq<char> },
}

/// The entries a parsed `toml_edit::DocumentMut` holds, in document order.
pub uninterp spec fn toml_doc_model(d: toml_edit::DocumentMut) -> Seq<EntrySpec>;

/// What parsing a string as a TOML document yields, if it parses.
pub uninterp spec fn toml_parse_doc(s: Seq<char>) -> Option<Seq<EntrySpec>>;

/// A parsed item, in executable form.
pub struct RawItem {
    /// The key.
    pub key: String,
    /// The documentation preceding the item.
    pub comments: String,
    /// The raw trailing comment (the type annotation, if any).
    pub annot: String,
    /// The raw value.
    pub value: RawValue,
}

impl View for RawItem {
    type V = ItemSpec;

    open spec fn view(&self) -> ItemSpec {
        ItemSpec {
            key: self.key@,
            comments: self.comments@,
            annot: self.annot@,
            value: self.value@,
        }
    }
}

/// One top-level entry of a document, in executable form; an item's payload
/// and a table's items are fetched separately.
pub enum RawEntry {
    /// A key/value pair of the global table.
    Item,
    /// A named table header.
    Table { name: String, comments: String },
    /// A construct the configuration model does not support.
    Unsupported { key: String },
}

/// Relies on `toml_edit::Value`'s `FromStr`: parses one TOML value from
/// text.  The error text is the parser's message.
#[verifier::external_body]
fn parse_value_text(s: &str) -> (r: Result<toml_edit::Value, String>)
    ensures
        match r {
            Ok(v) => toml_parse_value(s@) == Some(toml_value_model(v)),
            Err(_) => toml_parse_value(s@) is None,
        },
{
    match s.parse::<toml_edit::Value>() {
        Ok(v) => Ok(v),
        Err(e) => Err(e.to_string()),
    }
}

/// Relies on the variants of `toml_edit::Value`: booleans, integers,
/// strings and arrays carry their payloads; floats, date-times and inline
/// tables are unsupported kinds.
#[verifier::external_body]
fn value_to_raw(v: &toml_edit::Value) -> (r: RawValue)
    ensures
        r@ == toml_value_model(*v),
{
    match v {
        toml_edit::Value::Boolean(b) => RawValue::Bool(*b.value()),
        toml_edit::Value::Integer(i) => RawValue::Int(*i.value()),
        toml_edit::Value::String(s) => RawValue::String(s.value().clone()),
        toml_edit::Value::Array(a) => RawValue::Array(a.iter().map(value_to_raw).collect()),
        _ => RawValue::Other,
    }
}

/// Relies on `toml_edit::DocumentMut`'s `FromStr`: parses a whole TOML
/// document.  The error text is the parser's message.
#[verifier::external_body]
fn parse_doc_text(s: &str) -> (r: Result<toml_edit::DocumentMut, String>)
    ensures
        match r {
            Ok(d) => toml_parse_doc(s@) == Some(toml_doc_model(d)),
            Err(_) => toml_parse_doc(s@) is None,
        },
{
    match s.parse::<toml_edit::DocumentMut>() {
        Ok(d) => Ok(d),
        Err(e) => Err(e.to_string()),
    }
}

/// Relies on `toml_edit::Table::len`: the number of non-empty top-level
/// entries of the document.
#[verifier::external_body]
fn doc_len(d: &toml_edit::DocumentMut) -> (r: usize)
    ensures
        r == toml_doc_model(*d).len(),
{
    d.as_table().len()
}

/// Relies on `toml_edit::Table::iter` and `Decor::prefix`: classifies the
/// `i`-th top-level entry, carrying a table's name and the documentation
/// before it.
#[verifier::external_body]
fn doc_entry(d: &toml_edit::DocumentMut, i: usize) -> (r: RawEntry)
    requires
        i < toml_doc_model(*d).len(),
    ensures
        ({
            let e = toml_doc_model(*d)[i as int];
            match r {
                RawEntry::Item => e is Item,
                RawEntry::Table { name, comments } => e matches EntrySpec::Table {
                    name: n2,
                    comments: c2,
                    items: _,
                } && n2 == name@ && c2 == comments@,
                RawEntry::Unsupported { key } => e == (EntrySpec::Unsupported { key: key@ }),
            }
        }),
{
    let (key, item) = d.as_table().iter().nth(i).unwrap();
    match item {
        toml_edit::Item::Value(_) => RawEntry::Item,
        toml_edit::Item::Table(t) => RawEntry::Table {
            name: key.to_string(),
            comments: t.decor().prefix().and_then(|p| p.as_str()).unwrap_or("").to_string(),
        },
        _ => RawEntry::Unsupported { key: key.to_string() },
    }
}

/// Relies on `toml_edit::Table::iter`, `Table::key`, `Decor::prefix` and
/// `Decor::suffix`: the `i`-th top-level entry's item, with the
/// documentation before its key and the raw trailing comment of its value.
#[verifier::external_body]
fn doc_item(d: &toml_edit::DocumentMut, i: usize) -> (r: RawItem)
    requires
        i < toml_doc_model(*d).len(),
        toml_doc_model(*d)[i as int] is Item,
    ensures
        toml_doc_model(*d)[i as int] == EntrySpec::Item(r@),
{
    let t = d.as_table();
    let (key, item) = t.iter().nth(i).unwrap();
    match item {
        toml_edit::Item::Value(v) => RawItem {
            key: key.to_string(),
            comments: t.key(key).unwrap().leaf_decor().prefix().and_then(|p| p.as_str()).unwrap_or("").to_string(),
            annot: v.decor().suffix().and_then(|p| p.as_str()).unwrap_or("").to_string(),
            value: value_to_raw(v),
        },
        _ => RawItem { key: String::new(), comments: String::new(), annot: String::new(), value: RawValue::Other },
    }
}

/// Relies on `toml_edit::Table::len` for a named table: the number of its
/// entries.
#[verifier::external_body]
fn doc_table_len(d: &toml_edit::DocumentMut, i: usize) -> (r: usize)
    requires
        i < toml_doc_model(*d).len(),
        toml_doc_model(*d)[i as int] is Table,
    ensures
        r == toml_doc_model(*d)[i as int]->Table_items.len(),
{
    let (_, item) = d.as_table().iter().nth(i).unwrap();
    item.as_table().unwrap().len()
}

/// Relies on `toml_edit::Table::iter`, `Table::key` and the decors, inside
/// a named table: the `j`-th entry of the `i`-th table, or `None` where it
/// is not a plain value.
#[verifier::external_body]
fn doc_table_item(d: &toml_edit::DocumentMut, i: usize, j: usize) -> (r: Option<RawItem>)
    requires
        i < toml_doc_model(*d).len(),
        toml_doc_model(*d)[i as int] is Table,
        j < toml_doc_model(*d)[i as int]->Table_items.len(),
    ensures
        match r {
            Some(it) => toml_doc_model(*d)[i as int]->Table_items[j as int] == Some(it@),
            None => toml_doc_model(*d)[i as int]->Table_items[j as int] is None,
        },
{
    let (_, item) = d.as_table().iter().nth(i).unwrap();
    let t = item.as_table().unwrap();
    let (key, inner) = t.iter().nth(j).unwrap();
    match inner {
        toml_edit::Item::Value(v) => Some(RawItem {
            key: key.to_string(),
            comments: t.key(key).unwrap().leaf_decor().prefix().and_then(|p| p.as_str()).unwrap_or("").to_string(),
            annot: v.decor().suffix().and_then(|p| p.as_str()).unwrap_or("").to_string(),
            value: value_to_raw(v),
        }),
        _ => None,
    }
}

/// An ASCII whitespace character.
pub open spec fn is_ws(c: char) -> bool {
    c == ' ' || c == '\t' || c == '\r' || c == '\n'
}

/// The sequence with leading whitespace removed.
pub open spec fn trim_start_ws(s: Seq<char>) -> Seq<char>
    decreases s.len(),
{
    if s.len() > 0 && is_ws(s[0]) {
        trim_start_ws(s.skip(1))
    } else {
        s
    }
}

/// The sequence with trailing whitespace removed.
pub open spec fn trim_end_ws(s: Seq<char>) -> Seq<char>
    decreases s.len(),
{
    if s.len() > 0 && is_ws(s[s.len() - 1]) {
        trim_end_ws(s.drop_last())
    } else {
        s
    }
}

/// The sequence with whitespace removed from both ends.
pub open spec fn trim_ws(s: Seq<char>) -> Seq<char> {
    trim_end_ws(trim_start_ws(s))
}

/// The sequence with every leading `#` removed.
pub open spec fn strip_hashes(s: Seq<char>) -> Seq<char>
    decreases s.len(),
{
    if s.len() > 0 && s[0] == '#' {
        strip_hashes(s.skip(1))
    } else {
        s
    }
}

/// The type-expression text of a raw trailing comment: the comment without
/// surrounding whitespace and leading `#` marks, or nothing when the
/// comment is empty.
pub open spec fn annot_text(annot: Seq<char>) -> Option<Seq<char>> {
    if trim_ws(annot).len() == 0 {
        None
    } else {
        Some(strip_hashes(trim_ws(annot)))
    }
}

/// Extracts the type-expression text of a raw trailing comment.
#[verifier::loop_isolation(false)]
fn annot_of(annot: &str) -> (r: Option<String>)
    ensures
        match r {
            Some(t) => annot_text(annot@) == Some(t@),
            None => annot_text(annot@) is None,
        },
{
    let chars = str_to_chars(annot);
    let n = chars.len();
    let mut lo: usize = 0;
    proof {
        assert(annot@.skip(0) =~= annot@);
    }
    while lo < n && (chars[lo] == ' ' || chars[lo] == '\t' || chars[lo] == '\r' || chars[lo]
        == '\n')
        invariant
            lo <= n,
            trim_start_ws(annot@) == trim_start_ws(annot@.skip(lo as int)),
        decreases n - lo,
    {
        proof {
            assert(annot@.skip(lo as int).skip(1) =~= annot@.skip(lo + 1));
            assert(annot@.skip(lo as int)[0] == annot@[lo as int]);
        }
        lo = lo + 1;
    }
    proof {
        if lo < n {
            assert(annot@.skip(lo as int)[0] == annot@[lo as int]);
        }
        assert(trim_start_ws(annot@) == annot@.skip(lo as int));
    }
    let mut hi: usize = n;
    while hi > lo && (chars[hi - 1] == ' ' || chars[hi - 1] == '\t' || chars[hi - 1] == '\r'
        || chars[hi - 1] == '\n')
        invariant
            lo <= hi <= n,
            trim_end_ws(annot@.skip(lo as int)) == trim_end_ws(
                annot@.subrange(lo as int, hi as int),
            ),
        decreases hi,
    {
        proof {
            let cur = annot@.subrange(lo as int, hi as int);
            assert(cur[cur.len() - 1] == annot@[hi - 1]);
            assert(cur.drop_last() =~= annot@.subrange(lo as int, hi - 1));
        }
        hi = hi - 1;
    }
    proof {
        let cur = annot@.subrange(lo as int, hi as int);
        if hi > lo {
            assert(cur[cur.len() - 1] == annot@[hi - 1]);
        }
        assert(trim_ws(annot@) == annot@.subrange(lo as int, hi as int));
    }
    if lo == hi {
        proof {
            assert(trim_ws(annot@).len() == 0);
        }
        return None;
    }
    let mut lo2: usize = lo;
    while lo2 < hi && chars[lo2] == '#'
        invariant
            lo <= lo2 <= hi,
            strip_hashes(annot@.subrange(lo as int, hi as int)) == strip_hashes(
                annot@.subrange(lo2 as int, hi as int),
            ),
        decreases hi - lo2,
    {
        proof {
            let cur = annot@.subrange(lo2 as int, hi as int);
            assert(cur[0] == annot@[lo2 as int]);
            assert(cur.skip(1) =~= annot@.subrange(lo2 + 1, hi as int));
        }
        lo2 = lo2 + 1;
    }
    proof {
        let cur = annot@.subrange(lo2 as int, hi as int);
        if lo2 < hi {
            assert(cur[0] == annot@[lo2 as int]);
        }
        assert(strip_hashes(annot@.subrange(lo as int, hi as int)) == annot@.subrange(
            lo2 as int,
            hi as int,
        ));
    }
    let sub = crate::ty::subvec(&chars, lo2, hi);
    Some(crate::text::chars_to_string(&sub))
}

/// An item fails ingestion with `InvalidType`: its trailing comment carries
/// a type expression that does not parse.  This check runs first.
pub open spec fn item_err_invalid_type(it: ItemSpec) -> bool {
    annot_text(it.annot) matches Some(txt) && parse_ty(despace(txt)) is None
}

/// An item fails ingestion with `InvalidValue`: its annotation, if any,
/// parses, but the value is not valid.  This check runs second.
pub open spec fn item_err_invalid_value(it: ItemSpec) -> bool {
    !item_err_invalid_type(it) && !val_valid(it.value)
}

/// An item fails ingestion with `ValueTypeMismatch`: its annotation parses
/// and its value is valid, but does not satisfy the declared type.
pub open spec fn item_err_mismatch(it: ItemSpec) -> bool {
    annot_text(it.annot) matches Some(txt) && (parse_ty(despace(txt)) matches Some(t) && val_valid(
        it.value,
    ) && !matches_spec(it.value, t))
}

/// The configuration item a parsed item denotes: its value checked for
/// validity, and its declared type, where the trailing comment carries one,
/// parsed and checked against the value.  `None` stands for any of the
/// ingestion errors.
pub open spec fn item_model_of(it: ItemSpec) -> Option<ItemModel> {
    match annot_text(it.annot) {
        None => if val_valid(it.value) {
            Some(
                ItemModel {
                    key: it.key,
                    comments: it.comments,
                    value: CfgValModel { value: it.value, ty: None },
                },
            )
        } else {
            None
        },
        Some(txt) => match parse_ty(despace(txt)) {
            Some(t) => if val_valid(it.value) && matches_spec(it.value, t) {
                Some(
                    ItemModel {
                        key: it.key,
                        comments: it.comments,
                        value: CfgValModel { value: it.value, ty: Some(t) },
                    },
                )
            } else {
                None
            },
            None => None,
        },
    }
}

/// Builds a configuration item from a parsed item: checks validity, and
/// parses and checks the declared type where the trailing comment carries
/// one.
fn item_from_raw(it: RawItem) -> (r: ConfigResult<ConfigItem>)
    ensures
        match r {
            Ok(item) => item_model_of(it@) == Some(item@) && crate::value::cv_wf(item@.value),
            Err(e) => {
                &&& item_model_of(it@) is None
                &&& (e is InvalidType <==> item_err_invalid_type(it@))
                &&& (e is InvalidValue <==> item_err_invalid_value(it@))
                &&& (e is ValueTypeMismatch <==> item_err_mismatch(it@))
                &&& (e is InvalidValue || e is InvalidType || e is ValueTypeMismatch)
            },
        },
{
    match annot_of(it.annot.as_str()) {
        None => {
            match ConfigValue::from_raw_value(it.value) {
                Ok(v) => Ok(ConfigItem::new(it.key, v, it.comments)),
                Err(e) => Err(e),
            }
        },
        Some(txt) => {
            match ConfigType::new(txt.as_str()) {
                Err(e) => Err(e),
                Ok(ty) => {
                    match ConfigValue::from_raw_value_type(it.value, ty) {
                        Ok(v) => Ok(ConfigItem::new(it.key, v, it.comments)),
                        Err(e) => Err(e),
                    }
                },
            }
        },
    }
}

impl ConfigValue {
    /// Parses a TOML value from text, with no declared type.
    pub fn new(s: &str) -> (r: ConfigResult<ConfigValue>)
        ensures
            match r {
                Ok(cv) => toml_parse_value(s@) matches Some(v) && val_valid(v) && cv@ == (
                CfgValModel { value: v, ty: None }) && crate::value::cv_wf(cv@),
                Err(e) => {
                    &&& (e is Parse <==> toml_parse_value(s@) is None)
                    &&& (e is InvalidValue <==> (toml_parse_value(s@) matches Some(v)
                        && !val_valid(v)))
                    &&& (e is Parse || e is InvalidValue)
                },
            },
    {
        match parse_value_text(s) {
            Err(msg) => Err(ConfigErr::Parse(msg)),
            Ok(v) => {
                let raw = value_to_raw(&v);
                ConfigValue::from_raw_value(raw)
            },
        }
    }

    /// Parses a TOML value and a type expression from text; the value must
    /// satisfy the type.
    pub fn new_with_type(s: &str, ty: &str) -> (r: ConfigResult<ConfigValue>)
        ensures
            match r {
                Ok(cv) => toml_parse_value(s@) matches Some(v) && parse_ty(despace(ty@)) matches
                    Some(t) && val_valid(v) && matches_spec(v, t) && cv@ == (CfgValModel {
                    value: v,
                    ty: Some(t),
                }) && crate::value::cv_wf(cv@),
                Err(e) => {
                    &&& (e is Parse <==> toml_parse_value(s@) is None)
                    &&& (e is InvalidType <==> (toml_parse_value(s@) is Some && parse_ty(
                        despace(ty@),
                    ) is None))
                    &&& (e is InvalidValue <==> (toml_parse_value(s@) matches Some(v)
                        && parse_ty(despace(ty@)) is Some && !val_valid(v)))
                    &&& (e is ValueTypeMismatch <==> (toml_parse_value(s@) matches Some(v)
                        && val_valid(v) && (parse_ty(despace(ty@)) matches Some(t)
                        && !matches_spec(v, t))))
                    &&& (e matches ConfigErr::ValueTypeMismatch(k, ex) ==> (k@ == Seq::<
                        char,
                    >::empty() && (parse_ty(despace(ty@)) matches Some(t) && ex@
                        == crate::ty::ty_text(t))))
                    &&& (e is Parse || e is InvalidType || e is InvalidValue
                        || e is ValueTypeMismatch)
                },
            },
    {
        match parse_value_text(s) {
            Err(msg) => Err(ConfigErr::Parse(msg)),
            Ok(v) => {
                match ConfigType::new(ty) {
                    Err(e) => Err(e),
                    Ok(t) => {
                        let raw = value_to_raw(&v);
                        ConfigValue::from_raw_value_type(raw, t)
                    },
                }
            },
        }
    }
}


/// The item the first `i` entries of a document put under a global key, the
/// later entry winning (two cannot both succeed).
pub open spec fn global_of_entries(es: Seq<EntrySpec>, i: int, k: Seq<char>) -> Option<ItemModel>
    decreases i,
{
    if i <= 0 || i > es.len() {
        None
    } else {
        match es[i - 1] {
            EntrySpec::Item(it) => if it.key == k && item_model_of(it) is Some {
                item_model_of(it)
            } else {
                global_of_entries(es, i - 1, k)
            },
            _ => global_of_entries(es, i - 1, k),
        }
    }
}

/// The comments and raw items of the table the first `i` entries create
/// under a name, the later entry winning (two cannot both succeed).
pub open spec fn table_of_entries(es: Seq<EntrySpec>, i: int, n: Seq<char>) -> Option<
    (Seq<char>, Seq<Option<ItemSpec>>),
>
    decreases i,
{
    if i <= 0 || i > es.len() {
        None
    } else {
        match es[i - 1] {
            EntrySpec::Table { name, comments, items } => if name == n {
                Some((comments, items))
            } else {
                table_of_entries(es, i - 1, n)
            },
            _ => table_of_entries(es, i - 1, n),
        }
    }
}

/// The item the first `j` raw items of a table put under a key.
pub open spec fn table_items_find(
    items: Seq<Option<ItemSpec>>,
    j: int,
    k: Seq<char>,
) -> Option<ItemModel>
    decreases j,
{
    if j <= 0 || j > items.len() {
        None
    } else {
        match items[j - 1] {
            Some(it) => if it.key == k && item_model_of(it) is Some {
                item_model_of(it)
            } else {
                table_items_find(items, j - 1, k)
            },
            None => table_items_find(items, j - 1, k),
        }
    }
}

/// Whether every entry of a parsed document can be ingested: every value
/// supported, valid and satisfying its declared type, no duplicate keys or
/// tables, no reserved or unsupported construct.
pub open spec fn entries_ok(es: Seq<EntrySpec>) -> bool {
    forall|i: int|
        0 <= i < es.len() ==> match #[trigger] es[i] {
            EntrySpec::Item(it) => item_model_of(it) is Some && global_of_entries(
                es,
                i,
                it.key,
            ) is None,
            EntrySpec::Table { name, comments, items } => name != GLOBAL_TABLE_NAME@
                && table_of_entries(es, i, name) is None && (forall|j: int|
                0 <= j < items.len() ==> ((#[trigger] items[j]) matches Some(itj) && item_model_of(
                    itj,
                ) is Some && table_items_find(items, j, itj.key) is None)),
            EntrySpec::Unsupported { .. } => false,
        }
}

/// The item the first `i` entries put under a named table's key.
pub open spec fn entries_lookup(
    es: Seq<EntrySpec>,
    i: int,
    n: Seq<char>,
    k: Seq<char>,
) -> Option<ItemModel> {
    match table_of_entries(es, i, n) {
        Some(tc) => table_items_find(tc.1, tc.1.len() as int, k),
        None => None,
    }
}

/// The comments of the table the first `i` entries create under a name, as
/// the directory will carry them.
pub open spec fn entries_table_comments(es: Seq<EntrySpec>, i: int, n: Seq<char>) -> Option<
    Seq<char>,
> {
    match table_of_entries(es, i, n) {
        Some(tc) => Some(tc.0),
        None => None,
    }
}

/// The comments of a directory's table, if it has one of the name.
pub open spec fn cfg_table_comments(m: crate::config::ConfigModel, n: Seq<char>) -> Option<
    Seq<char>,
> {
    match find_table(m.tables, n) {
        Some(tm) => Some(tm.comments),
        None => None,
    }
}

/// A parsed document holds an item whose annotation does not parse.
pub open spec fn doc_err_invalid_type(es: Seq<EntrySpec>) -> bool {
    ||| exists|i: int|
        {
            &&& 0 <= i < es.len()
            &&& (#[trigger] es[i]) matches EntrySpec::Item(it)
            &&& item_err_invalid_type(it)
        }
    ||| exists|i: int, j: int|
        {
            &&& 0 <= i < es.len()
            &&& es[i] is Table
            &&& 0 <= j < es[i]->Table_items.len()
            &&& (#[trigger] es[i]->Table_items[j]) matches Some(itj)
            &&& item_err_invalid_type(itj)
        }
}

/// A parsed document holds an invalid value, or a nested non-value entry.
pub open spec fn doc_err_invalid_value(es: Seq<EntrySpec>) -> bool {
    ||| exists|i: int|
        {
            &&& 0 <= i < es.len()
            &&& (#[trigger] es[i]) matches EntrySpec::Item(it)
            &&& item_err_invalid_value(it)
        }
    ||| exists|i: int, j: int|
        {
            &&& 0 <= i < es.len()
            &&& es[i] is Table
            &&& 0 <= j < es[i]->Table_items.len()
            &&& ((#[trigger] es[i]->Table_items[j]) is None || (
            es[i]->Table_items[j] matches Some(itj) && item_err_invalid_value(itj)))
        }
}

/// A parsed document holds a value that contradicts its annotation.
pub open spec fn doc_err_mismatch(es: Seq<EntrySpec>) -> bool {
    ||| exists|i: int|
        {
            &&& 0 <= i < es.len()
            &&& (#[trigger] es[i]) matches EntrySpec::Item(it)
            &&& item_err_mismatch(it)
        }
    ||| exists|i: int, j: int|
        {
            &&& 0 <= i < es.len()
            &&& es[i] is Table
            &&& 0 <= j < es[i]->Table_items.len()
            &&& (#[trigger] es[i]->Table_items[j]) matches Some(itj)
            &&& item_err_mismatch(itj)
        }
}

/// A parsed document defines the key twice, in the global table or within
/// one named table.
pub open spec fn doc_dup_key(es: Seq<EntrySpec>, k: Seq<char>) -> bool {
    ||| exists|i: int|
        {
            &&& 0 <= i < es.len()
            &&& (#[trigger] es[i]) matches EntrySpec::Item(it)
            &&& it.key == k
            &&& global_of_entries(es, i, k) is Some
        }
    ||| exists|i: int, j: int|
        {
            &&& 0 <= i < es.len()
            &&& es[i] is Table
            &&& 0 <= j < es[i]->Table_items.len()
            &&& (#[trigger] es[i]->Table_items[j]) matches Some(itj)
            &&& itj.key == k
            &&& table_items_find(es[i]->Table_items, j, k) is Some
        }
}

/// A parsed document declares the named table twice.
pub open spec fn doc_dup_table(es: Seq<EntrySpec>, n: Seq<char>) -> bool {
    exists|i: int|
        {
            &&& 0 <= i < es.len()
            &&& (#[trigger] es[i]) matches EntrySpec::Table { name, .. }
            &&& name == n
            &&& table_of_entries(es, i, n) is Some
        }
}

/// A parsed document holds an unsupported top-level construct, or a table
/// under the reserved global name.
pub open spec fn doc_has_unsupported(es: Seq<EntrySpec>) -> bool {
    ||| exists|i: int| 0 <= i < es.len() && (#[trigger] es[i]) is Unsupported
    ||| exists|i: int|
        {
            &&& 0 <= i < es.len()
            &&& (#[trigger] es[i]) matches EntrySpec::Table { name, .. }
            &&& name == GLOBAL_TABLE_NAME@
        }
}

/// Ingests the items of the named table that the `i`-th entry declares.
#[verifier::loop_isolation(false)]
#[verifier::rlimit(60)]
fn ingest_table_items(
    cfg: &mut Config,
    doc: &toml_edit::DocumentMut,
    i: usize,
    name: &str,
) -> (r: ConfigResult<()>)
    requires
        cfg_wf(old(cfg)@),
        i < toml_doc_model(*doc).len(),
        toml_doc_model(*doc)[i as int] is Table,
        name@ == toml_doc_model(*doc)[i as int]->Table_name,
        name@ != GLOBAL_TABLE_NAME@,
        find_table(old(cfg)@.tables, name@) matches Some(t0) && t0.items == Seq::<
            ItemModel,
        >::empty(),
    ensures
        cfg_wf(final(cfg)@),
        match r {
            Ok(_) => ({
                let items = toml_doc_model(*doc)[i as int]->Table_items;
                &&& forall|j: int|
                    0 <= j < items.len() ==> ((#[trigger] items[j]) matches Some(itj)
                        && item_model_of(itj) is Some && table_items_find(items, j, itj.key)
                        is None)
                &&& final(cfg)@.global == old(cfg)@.global
                &&& forall|nn: Seq<char>, k: Seq<char>| #![trigger lookup(final(cfg)@, nn, k)]
                    nn != GLOBAL_TABLE_NAME@ ==> lookup(final(cfg)@, nn, k) == if nn == name@ {
                        table_items_find(items, items.len() as int, k)
                    } else {
                        lookup(old(cfg)@, nn, k)
                    }
                &&& forall|nn: Seq<char>| #![trigger find_table(final(cfg)@.tables, nn)]
                    cfg_table_comments(final(cfg)@, nn) == cfg_table_comments(old(cfg)@, nn)
            }),
            Err(e) => ({
                let items = toml_doc_model(*doc)[i as int]->Table_items;
                &&& !(forall|j: int|
                    0 <= j < items.len() ==> ((#[trigger] items[j]) matches Some(itj)
                        && item_model_of(itj) is Some && table_items_find(items, j, itj.key)
                        is None))
                &&& (e is InvalidType ==> (exists|j: int|
                    {
                        &&& 0 <= j < items.len()
                        &&& (#[trigger] items[j]) matches Some(itj)
                        &&& item_err_invalid_type(itj)
                    }))
                &&& (e is InvalidValue ==> (exists|j: int|
                    {
                        &&& 0 <= j < items.len()
                        &&& ((#[trigger] items[j]) is None || (items[j] matches Some(itj)
                            && item_err_invalid_value(itj)))
                    }))
                &&& (e is ValueTypeMismatch ==> (exists|j: int|
                    {
                        &&& 0 <= j < items.len()
                        &&& (#[trigger] items[j]) matches Some(itj)
                        &&& item_err_mismatch(itj)
                    }))
                &&& (e matches ConfigErr::DuplicateKey(k) ==> (exists|j: int|
                    {
                        &&& 0 <= j < items.len()
                        &&& (#[trigger] items[j]) matches Some(itj)
                        &&& itj.key == k@
                        &&& table_items_find(items, j, k@) is Some
                    }))
                &&& (e is InvalidType || e is InvalidValue || e is ValueTypeMismatch
                    || e is DuplicateKey)
            }),
        },
{
    let ghost items_spec = toml_doc_model(*doc)[i as int]->Table_items;
    let tn = doc_table_len(doc, i);
    let mut j: usize = 0;
    while j < tn
        invariant
            j <= tn,
            tn == items_spec.len(),
            i < toml_doc_model(*doc).len(),
            toml_doc_model(*doc)[i as int] is Table,
            items_spec == toml_doc_model(*doc)[i as int]->Table_items,
            name@ != GLOBAL_TABLE_NAME@,
            cfg_wf(cfg@),
            cfg@.global == old(cfg)@.global,
            forall|jj: int|
                0 <= jj < j ==> ((#[trigger] items_spec[jj]) matches Some(itj) && item_model_of(
                    itj,
                ) is Some && table_items_find(items_spec, jj, itj.key) is None),
            find_table(cfg@.tables, name@) matches Some(tm) && (forall|k: Seq<char>|
                #![trigger find_item(tm.items, k)]
                find_item(tm.items, k) == table_items_find(items_spec, j as int, k)),
            forall|nn: Seq<char>| #![trigger find_table(cfg@.tables, nn)]
                nn != name@ ==> find_table(cfg@.tables, nn) == find_table(old(cfg)@.tables, nn),
            forall|nn: Seq<char>| #![trigger find_table(cfg@.tables, nn)]
                cfg_table_comments(cfg@, nn) == cfg_table_comments(old(cfg)@, nn),
        decreases tn - j,
    {
        let rit = match doc_table_item(doc, i, j) {
            None => {
                proof {
                    assert(items_spec[j as int] is None);
                }
                return Err(ConfigErr::InvalidValue);
            },
            Some(rit) => rit,
        };
        let ghost itv = rit@;
        let item = match item_from_raw(rit) {
            Err(e) => {
                proof {
                    assert(items_spec[j as int] == Some(itv));
                    assert(item_model_of(itv) is None);
                }
                return Err(e);
            },
            Ok(item) => item,
        };
        match cfg.insert_in_table(name, item) {
            Err(e) => {
                proof {
                    assert(items_spec[j as int] == Some(itv));
                    assert(table_items_find(items_spec, j as int, itv.key) is Some);
                    assert(!(e is NotFound));
                }
                return Err(e);
            },
            Ok(_) => {},
        }
        j = j + 1;
    }
    proof {
        assert forall|nn: Seq<char>, k: Seq<char>| #![trigger lookup(cfg@, nn, k)]
            nn != GLOBAL_TABLE_NAME@ implies lookup(cfg@, nn, k) == (if nn == name@ {
            table_items_find(items_spec, items_spec.len() as int, k)
        } else {
            lookup(old(cfg)@, nn, k)
        }) by {}
    }
    Ok(())
}

impl Config {
    /// Parses a whole TOML document into a configuration: global values and
    /// one level of named tables, each value checked for validity and
    /// against its declared type, with duplicate keys and tables rejected.
    #[verifier::loop_isolation(false)]
    #[verifier::rlimit(60)]
    pub fn from_toml(toml: &str) -> (r: ConfigResult<Config>)
        ensures
            match r {
                Ok(cfg) => ({
                    &&& toml_parse_doc(toml@) matches Some(es) && ({
                        &&& entries_ok(es)
                        &&& cfg_wf(cfg@)
                        &&& forall|k: Seq<char>| #![trigger find_item(cfg@.global, k)]
                            find_item(cfg@.global, k) == global_of_entries(es, es.len() as int, k)
                        &&& forall|n: Seq<char>, k: Seq<char>| #![trigger lookup(cfg@, n, k)]
                            n != GLOBAL_TABLE_NAME@ ==> lookup(cfg@, n, k) == entries_lookup(
                                es,
                                es.len() as int,
                                n,
                                k,
                            )
                        &&& forall|n: Seq<char>| #![trigger find_table(cfg@.tables, n)]
                            cfg_table_comments(cfg@, n) == entries_table_comments(
                                es,
                                es.len() as int,
                                n,
                            )
                    })
                }),
                Err(e) => {
                    &&& (e is Parse <==> toml_parse_doc(toml@) is None)
                    &&& (toml_parse_doc(toml@) matches Some(es) ==> ({
                        &&& !entries_ok(es)
                        &&& (e is InvalidType ==> doc_err_invalid_type(es))
                        &&& (e is InvalidValue ==> doc_err_invalid_value(es))
                        &&& (e is ValueTypeMismatch ==> doc_err_mismatch(es))
                        &&& (e matches ConfigErr::DuplicateKey(k) ==> doc_dup_key(es, k@))
                        &&& (e matches ConfigErr::DuplicateTable(nm) ==> doc_dup_table(es, nm@))
                        &&& (e is Other ==> doc_has_unsupported(es))
                        &&& (e is InvalidType || e is InvalidValue || e is ValueTypeMismatch
                            || e is DuplicateKey || e is DuplicateTable || e is Other)
                    }))
                },
            },
    {
        let doc = match parse_doc_text(toml) {
            Err(m) => {
                return Err(ConfigErr::Parse(m));
            },
            Ok(d) => d,
        };
        let ghost es = toml_doc_model(doc);
        let n = doc_len(&doc);
        let mut cfg = Config::new();
        let mut i: usize = 0;
        while i < n
            invariant
                i <= n,
                n == es.len(),
                toml_doc_model(doc) == es,
                toml_parse_doc(toml@) == Some(es),
                cfg_wf(cfg@),
                forall|ii: int|
                    0 <= ii < i ==> match #[trigger] es[ii] {
                        EntrySpec::Item(it) => item_model_of(it) is Some && global_of_entries(
                            es,
                            ii,
                            it.key,
                        ) is None,
                        EntrySpec::Table { name, comments, items } => name != GLOBAL_TABLE_NAME@
                            && table_of_entries(es, ii, name) is None && (forall|j: int|
                            0 <= j < items.len() ==> ((#[trigger] items[j]) matches Some(itj)
                                && item_model_of(itj) is Some && table_items_find(
                                items,
                                j,
                                itj.key,
                            ) is None)),
                        EntrySpec::Unsupported { .. } => false,
                    },
                forall|k: Seq<char>| #![trigger find_item(cfg@.global, k)]
                    find_item(cfg@.global, k) == global_of_entries(es, i as int, k),
                forall|nn: Seq<char>, k: Seq<char>| #![trigger lookup(cfg@, nn, k)]
                    nn != GLOBAL_TABLE_NAME@ ==> lookup(cfg@, nn, k) == entries_lookup(
                        es,
                        i as int,
                        nn,
                        k,
                    ),
                forall|nn: Seq<char>| #![trigger find_table(cfg@.tables, nn)]
                    cfg_table_comments(cfg@, nn) == entries_table_comments(es, i as int, nn),
            decreases n - i,
        {
            let ghost pre = cfg@;
            match doc_entry(&doc, i) {
                RawEntry::Item => {
                    let it = doc_item(&doc, i);
                    let ghost itv = it@;
                    let item = match item_from_raw(it) {
                        Err(e) => {
                            proof {
                                assert(es[i as int] == EntrySpec::Item(itv));
                                assert(!entries_ok(es));
                                if e is InvalidType {
                                    assert(doc_err_invalid_type(es));
                                }
                                if e is InvalidValue {
                                    assert(doc_err_invalid_value(es));
                                }
                                if e is ValueTypeMismatch {
                                    assert(doc_err_mismatch(es));
                                }
                            }
                            return Err(e);
                        },
                        Ok(item) => item,
                    };
                    match cfg.insert_global(item) {
                        Err(e) => {
                            proof {
                                assert(es[i as int] == EntrySpec::Item(itv));
                                assert(item@.key == itv.key);
                                assert(global_of_entries(es, i as int, itv.key) is Some);
                                assert(!entries_ok(es));
                                assert(doc_dup_key(es, e->DuplicateKey_0@));
                            }
                            return Err(e);
                        },
                        Ok(_) => {},
                    }
                    proof {
                        assert forall|nn: Seq<char>, k: Seq<char>| #![trigger lookup(cfg@, nn, k)]
                            nn != GLOBAL_TABLE_NAME@ implies lookup(cfg@, nn, k) == entries_lookup(
                            es,
                            i + 1,
                            nn,
                            k,
                        ) by {
                            assert(lookup(cfg@, nn, k) == lookup(pre, nn, k));
                        }
                    }
                },
                RawEntry::Table { name, comments } => {
                    let ghost n0 = name@;
                    match cfg.new_table(name.as_str(), comments.as_str()) {
                        Err(e) => {
                            proof {
                                if n0 != GLOBAL_TABLE_NAME@ {
                                    assert(cfg_table_comments(pre, n0) is Some);
                                    assert(table_of_entries(es, i as int, n0) is Some);
                                    assert(doc_dup_table(es, e->DuplicateTable_0@));
                                } else {
                                    assert(doc_has_unsupported(es));
                                }
                                assert(!entries_ok(es));
                            }
                            return Err(e);
                        },
                        Ok(_) => {},
                    }
                    let ghost mid = cfg@;
                    match ingest_table_items(&mut cfg, &doc, i, name.as_str()) {
                        Err(e) => {
                            proof {
                                assert(!entries_ok(es));
                                let titems = es[i as int]->Table_items;
                                if e is InvalidType {
                                    let j = choose|j: int|
                                        {
                                            &&& 0 <= j < titems.len()
                                            &&& (#[trigger] titems[j]) matches Some(itj)
                                            &&& item_err_invalid_type(itj)
                                        };
                                    assert(es[i as int]->Table_items[j] == titems[j]);
                                    assert(doc_err_invalid_type(es));
                                }
                                if e is InvalidValue {
                                    let j = choose|j: int|
                                        {
                                            &&& 0 <= j < titems.len()
                                            &&& ((#[trigger] titems[j]) is None || (
                                            titems[j] matches Some(itj) && item_err_invalid_value(
                                                itj,
                                            )))
                                        };
                                    assert(es[i as int]->Table_items[j] == titems[j]);
                                    assert(doc_err_invalid_value(es));
                                }
                                if e is ValueTypeMismatch {
                                    let j = choose|j: int|
                                        {
                                            &&& 0 <= j < titems.len()
                                            &&& (#[trigger] titems[j]) matches Some(itj)
                                            &&& item_err_mismatch(itj)
                                        };
                                    assert(es[i as int]->Table_items[j] == titems[j]);
                                    assert(doc_err_mismatch(es));
                                }
                                if e is DuplicateKey {
                                    let j = choose|j: int|
                                        {
                                            &&& 0 <= j < titems.len()
                                            &&& (#[trigger] titems[j]) matches Some(itj)
                                            &&& itj.key == e->DuplicateKey_0@
                                            &&& table_items_find(
                                                titems,
                                                j,
                                                e->DuplicateKey_0@,
                                            ) is Some
                                        };
                                    assert(es[i as int]->Table_items[j] == titems[j]);
                                    assert(doc_dup_key(es, e->DuplicateKey_0@));
                                }
                            }
                            return Err(e);
                        },
                        Ok(_) => {},
                    }
                    proof {
                        assert(cfg@.global == mid.global && mid.global == pre.global);
                        assert forall|k: Seq<char>| #![trigger find_item(cfg@.global, k)] true
                            implies find_item(cfg@.global, k) == global_of_entries(
                            es,
                            i + 1,
                            k,
                        ) by {}
                        assert forall|nn: Seq<char>, k: Seq<char>| #![trigger lookup(cfg@, nn, k)]
                            nn != GLOBAL_TABLE_NAME@ implies lookup(cfg@, nn, k) == entries_lookup(
                            es,
                            i + 1,
                            nn,
                            k,
                        ) by {
                            if nn != n0 {
                                assert(lookup(mid, nn, k) == lookup(pre, nn, k));
                            }
                        }
                        assert forall|nn: Seq<char>| #![trigger find_table(cfg@.tables, nn)] true
                            implies cfg_table_comments(cfg@, nn) == entries_table_comments(
                            es,
                            i + 1,
                            nn,
                        ) by {
                            assert(cfg_table_comments(cfg@, nn) == cfg_table_comments(mid, nn));
                            if nn != n0 {
                                assert(cfg_table_comments(mid, nn) == cfg_table_comments(pre, nn));
                            }
                        }
                    }
                },
                RawEntry::Unsupported { key } => {
                    proof {
                        assert(es[i as int] is Unsupported);
                        assert(!entries_ok(es));
                        assert(doc_has_unsupported(es));
                    }
                    return Err(ConfigErr::Other(crate::ty::lit_string(
                        "unsupported top-level construct",
                    )));
                },
            }
            i = i + 1;
        }
        Ok(cfg)
    }
}

} // verus!
