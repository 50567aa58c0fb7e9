//! The item and table directory: keyed storage of configuration items in a
//! global table and any number of named tables, with lexicographic order of
//! tables and of keys, and the reconciliation operations over it: merge,
//! update, and point-writes.
use vstd::prelude::*;

use crate::text::{lemma_seq_lt_total, lemma_seq_lt_trans, seq_lt, str_eq, str_lt};
use crate::value::{cv_wf, matches_spec, CfgValModel, ConfigValue};
use crate::{ConfigErr, ConfigResult};

verus! {

broadcast use
    vstd::std_specs::vec::group_vec_axioms,
    vstd::seq::group_seq_axioms,
    vstd::string::group_string_axioms;

/// The reserved name under which the global table is addressed.
pub const GLOBAL_TABLE_NAME: &'static str = "__GLOBAL__";

/// The model of a configuration item.
#[verifier::ext_equal]
pub struct ItemModel {
    /// The key, unique within its table.
    pub key: Seq<char>,
    /// The typed value.
    pub value: CfgValModel,
    /// The documentation text that precedes the item.
    pub comments: Seq<char>,
}

/// The model of a named table.
#[verifier::ext_equal]
pub struct TableModel {
    /// The table name.
    pub name: Seq<char>,
    /// The documentation text that precedes the table.
    pub comments: Seq<char>,
    /// The items, in strictly ascending key order.
    pub items: Seq<ItemModel>,
}

/// The model of a whole configuration.
#[verifier::ext_equal]
pub struct ConfigModel {
    /// The items of the global table, in strictly ascending key order.
    pub global: Seq<ItemModel>,
    /// The named tables, in strictly ascending name order.
    pub tables: Seq<TableModel>,
}

/// A configuration item: a key, a typed value, and documentation.
#[derive(Debug)]
pub struct ConfigItem {
    key: String,
    value: ConfigValue,
    comments: String,
}

impl View for ConfigItem {
    type V = ItemModel;

    closed spec fn view(&self) -> ItemModel {
        ItemModel { key: self.key@, value: self.value@, comments: self.comments@ }
    }
}

impl ConfigItem {
    /// Builds an item from its parts.
    pub fn new(key: String, value: ConfigValue, comments: String) -> (r: ConfigItem)
        ensures
            r@ == (ItemModel { key: key@, value: value@, comments: comments@ }),
    {
        ConfigItem { key, value, comments }
    }

    /// The key of the config item.
    pub fn key(&self) -> (r: &str)
        ensures
            r@ == self@.key,
    {
        self.key.as_str()
    }

    /// The value of the config item.
    pub fn value(&self) -> (r: &ConfigValue)
        ensures
            r@ == self@.value,
    {
        &self.value
    }

    /// The comments of the config item.
    pub fn comments(&self) -> (r: &str)
        ensures
            r@ == self@.comments,
    {
        self.comments.as_str()
    }
}

/// A named table with its documentation.
#[derive(Debug)]
pub struct NamedTable {
    name: String,
    comments: String,
    items: Vec<ConfigItem>,
}

impl View for NamedTable {
    type V = TableModel;

    closed spec fn view(&self) -> TableModel {
        TableModel {
            name: self.name@,
            comments: self.comments@,
            items: self.items@.map_values(|it: ConfigItem| it@),
        }
    }
}

impl NamedTable {
    /// The name of the table.
    pub fn name(&self) -> (r: &str)
        ensures
            r@ == self@.name,
    {
        self.name.as_str()
    }

    /// The comments of the table.
    pub fn comments(&self) -> (r: &str)
        ensures
            r@ == self@.comments,
    {
        self.comments.as_str()
    }

    /// The items of the table, in ascending key order.
    pub fn items(&self) -> (r: &Vec<ConfigItem>)
        ensures
            r@.map_values(|it: ConfigItem| it@) == self@.items,
    {
        &self.items
    }
}

/// Strictly ascending key order (which also makes keys unique).
pub open spec fn items_sorted(items: Seq<ItemModel>) -> bool {
    forall|i: int, j: int|
        0 <= i < j < items.len() ==> seq_lt(#[trigger] items[i].key, #[trigger] items[j].key)
}

/// Every item holds a well-formed typed value.
pub open spec fn items_wf(items: Seq<ItemModel>) -> bool {
    items_sorted(items) && forall|i: int|
        0 <= i < items.len() ==> cv_wf((#[trigger] items[i]).value)
}

/// Strictly ascending table-name order.
pub open spec fn tables_sorted(tables: Seq<TableModel>) -> bool {
    forall|i: int, j: int|
        0 <= i < j < tables.len() ==> seq_lt(#[trigger] tables[i].name, #[trigger] tables[j].name)
}

/// Well-formedness of a configuration: both levels sorted, all values
/// well-formed, and no named table under the reserved global name.
pub open spec fn cfg_wf(m: ConfigModel) -> bool {
    &&& items_wf(m.global)
    &&& tables_sorted(m.tables)
    &&& forall|i: int| 0 <= i < m.tables.len() ==> items_wf((#[trigger] m.tables[i]).items)
    &&& forall|i: int| 0 <= i < m.tables.len() ==> (#[trigger] m.tables[i]).name != GLOBAL_TABLE_NAME@
}

/// The first item of the given key, scanning left to right.
pub open spec fn find_item(items: Seq<ItemModel>, key: Seq<char>) -> Option<ItemModel>
    decreases items.len(),
{
    if items.len() == 0 {
        None
    } else if items[0].key == key {
        Some(items[0])
    } else {
        find_item(items.skip(1), key)
    }
}

/// The first table of the given name, scanning left to right.
pub open spec fn find_table(tables: Seq<TableModel>, name: Seq<char>) -> Option<TableModel>
    decreases tables.len(),
{
    if tables.len() == 0 {
        None
    } else if tables[0].name == name {
        Some(tables[0])
    } else {
        find_table(tables.skip(1), name)
    }
}

/// The item under a table name and key; the reserved name addresses the
/// global table.
pub open spec fn lookup(m: ConfigModel, table: Seq<char>, key: Seq<char>) -> Option<ItemModel> {
    if table == GLOBAL_TABLE_NAME@ {
        find_item(m.global, key)
    } else {
        match find_table(m.tables, table) {
            Some(t) => find_item(t.items, key),
            None => None,
        }
    }
}

/// What `find_item` finds: nothing exactly when no item bears the key, and
/// under unique keys, the item bearing it.
pub proof fn lemma_find_item(items: Seq<ItemModel>, key: Seq<char>)
    ensures
        find_item(items, key) is None <==> (forall|i: int|
            0 <= i < items.len() ==> (#[trigger] items[i]).key != key),
        find_item(items, key) matches Some(x) ==> exists|i: int|
            0 <= i < items.len() && #[trigger] items[i] == x && x.key == key,
        items_sorted(items) ==> forall|i: int|
            0 <= i < items.len() && (#[trigger] items[i]).key == key ==> find_item(items, key)
                == Some(items[i]),
    decreases items.len(),
{
    if items.len() > 0 {
        let rest = items.skip(1);
        lemma_find_item(rest, key);
        assert(forall|i: int| 0 <= i < rest.len() ==> #[trigger] rest[i] == items[i + 1]);
        if items[0].key != key {
            if find_item(items, key) is None {
                assert forall|i: int|
                    0 <= i < items.len() implies (#[trigger] items[i]).key != key by {
                    if i > 0 {
                        assert(rest[i - 1].key != key);
                    }
                }
            }
        }
        if items_sorted(items) {
            assert forall|i: int, j: int|
                0 <= i < j < rest.len() implies seq_lt(
                #[trigger] rest[i].key,
                #[trigger] rest[j].key,
            ) by {
                assert(rest[i] == items[i + 1] && rest[j] == items[j + 1]);
            }
            assert(items_sorted(rest));
            if items[0].key == key {
                assert forall|i: int|
                    0 <= i < items.len() && (#[trigger] items[i]).key == key implies find_item(
                    items,
                    key,
                ) == Some(items[i]) by {
                    if i > 0 {
                        lemma_seq_lt_total(items[0].key, items[i].key);
                    }
                }
            } else {
                assert forall|i: int|
                    0 <= i < items.len() && (#[trigger] items[i]).key == key implies find_item(
                    items,
                    key,
                ) == Some(items[i]) by {
                    assert(i > 0);
                    assert(rest[i - 1] == items[i]);
                    assert(find_item(rest, key) == Some(rest[i - 1]));
                }
            }
        }
    }
}

/// What `find_table` finds, in the same way.
pub proof fn lemma_find_table(tables: Seq<TableModel>, name: Seq<char>)
    ensures
        find_table(tables, name) is None <==> (forall|i: int|
            0 <= i < tables.len() ==> (#[trigger] tables[i]).name != name),
        find_table(tables, name) matches Some(x) ==> exists|i: int|
            0 <= i < tables.len() && #[trigger] tables[i] == x && x.name == name,
        tables_sorted(tables) ==> forall|i: int|
            0 <= i < tables.len() && (#[trigger] tables[i]).name == name ==> find_table(
                tables,
                name,
            ) == Some(tables[i]),
    decreases tables.len(),
{
    if tables.len() > 0 {
        let rest = tables.skip(1);
        lemma_find_table(rest, name);
        assert(forall|i: int| 0 <= i < rest.len() ==> #[trigger] rest[i] == tables[i + 1]);
        if tables[0].name != name {
            if find_table(tables, name) is None {
                assert forall|i: int|
                    0 <= i < tables.len() implies (#[trigger] tables[i]).name != name by {
                    if i > 0 {
                        assert(rest[i - 1].name != name);
                    }
                }
            }
        }
        if tables_sorted(tables) {
            assert forall|i: int, j: int|
                0 <= i < j < rest.len() implies seq_lt(
                #[trigger] rest[i].name,
                #[trigger] rest[j].name,
            ) by {
                assert(rest[i] == tables[i + 1] && rest[j] == tables[j + 1]);
            }
            assert(tables_sorted(rest));
            if tables[0].name == name {
                assert forall|i: int|
                    0 <= i < tables.len() && (#[trigger] tables[i]).name == name implies find_table(
                    tables,
                    name,
                ) == Some(tables[i]) by {
                    if i > 0 {
                        lemma_seq_lt_total(tables[0].name, tables[i].name);
                    }
                }
            } else {
                assert forall|i: int|
                    0 <= i < tables.len() && (#[trigger] tables[i]).name == name implies find_table(
                    tables,
                    name,
                ) == Some(tables[i]) by {
                    assert(i > 0);
                    assert(rest[i - 1] == tables[i]);
                    assert(find_table(rest, name) == Some(rest[i - 1]));
                }
            }
        }
    }
}

/// Inserting an item at its sorted position keeps the order and changes
/// `find_item` only at the inserted key.
pub proof fn lemma_item_insert(items: Seq<ItemModel>, idx: int, it: ItemModel)
    requires
        items_sorted(items),
        0 <= idx <= items.len(),
        forall|j: int| 0 <= j < idx ==> seq_lt((#[trigger] items[j]).key, it.key),
        idx < items.len() ==> seq_lt(it.key, items[idx].key),
    ensures
        items_sorted(items.insert(idx, it)),
        forall|k: Seq<char>| #![trigger find_item(items.insert(idx, it), k)]
            find_item(items.insert(idx, it), k) == if k == it.key {
                Some(it)
            } else {
                find_item(items, k)
            },
    decreases items.len(),
{
    let out = items.insert(idx, it);
    items.insert_ensures(idx, it);
    assert forall|i: int, j: int|
        0 <= i < j < out.len() implies seq_lt(#[trigger] out[i].key, #[trigger] out[j].key) by {
        let oi = if i < idx { items[i] } else if i == idx { it } else { items[i - 1] };
        let oj = if j < idx { items[j] } else if j == idx { it } else { items[j - 1] };
        assert(out[i] == oi && out[j] == oj);
        if i < idx && j > idx {
            if j - 1 > idx {
                lemma_seq_lt_trans(it.key, items[idx].key, items[j - 1].key);
            }
            lemma_seq_lt_trans(items[i].key, it.key, items[j - 1].key);
        }
        if i == idx && j > idx && idx < items.len() && j - 1 > idx {
            lemma_seq_lt_trans(it.key, items[idx].key, items[j - 1].key);
        }
    }
    assert forall|k: Seq<char>| #![trigger find_item(out, k)] find_item(out, k) == (if k
        == it.key {
        Some(it)
    } else {
        find_item(items, k)
    }) by {
        lemma_find_item(out, k);
        lemma_find_item(items, k);
        if k == it.key {
            assert(out[idx] == it);
            assert(find_item(out, k) == Some(out[idx]));
        } else {
            match find_item(items, k) {
                Some(x) => {
                    let i = choose|i: int|
                        0 <= i < items.len() && #[trigger] items[i] == x && x.key == k;
                    if i < idx {
                        assert(out[i] == items[i]);
                        assert(find_item(out, k) == Some(out[i]));
                    } else {
                        assert(out[i + 1] == items[i]);
                        assert(find_item(out, k) == Some(out[i + 1]));
                    }
                },
                None => {
                    assert forall|i: int|
                        0 <= i < out.len() implies (#[trigger] out[i]).key != k by {
                        if i < idx {
                            assert(out[i] == items[i]);
                        } else if i == idx {
                        } else {
                            assert(out[i] == items[i - 1]);
                        }
                    }
                },
            }
        }
    }
}

/// Inserting a table at its sorted position keeps the order and changes
/// `find_table` only at the inserted name.
pub proof fn lemma_table_insert(tables: Seq<TableModel>, idx: int, t: TableModel)
    requires
        tables_sorted(tables),
        0 <= idx <= tables.len(),
        forall|j: int| 0 <= j < idx ==> seq_lt((#[trigger] tables[j]).name, t.name),
        idx < tables.len() ==> seq_lt(t.name, tables[idx].name),
    ensures
        tables_sorted(tables.insert(idx, t)),
        forall|n: Seq<char>| #![trigger find_table(tables.insert(idx, t), n)]
            find_table(tables.insert(idx, t), n) == if n == t.name {
                Some(t)
            } else {
                find_table(tables, n)
            },
{
    let out = tables.insert(idx, t);
    tables.insert_ensures(idx, t);
    assert forall|i: int, j: int|
        0 <= i < j < out.len() implies seq_lt(#[trigger] out[i].name, #[trigger] out[j].name) by {
        let oi = if i < idx { tables[i] } else if i == idx { t } else { tables[i - 1] };
        let oj = if j < idx { tables[j] } else if j == idx { t } else { tables[j - 1] };
        assert(out[i] == oi && out[j] == oj);
        if i < idx && j > idx {
            if j - 1 > idx {
                lemma_seq_lt_trans(t.name, tables[idx].name, tables[j - 1].name);
            }
            lemma_seq_lt_trans(tables[i].name, t.name, tables[j - 1].name);
        }
        if i == idx && j > idx && idx < tables.len() && j - 1 > idx {
            lemma_seq_lt_trans(t.name, tables[idx].name, tables[j - 1].name);
        }
    }
    assert forall|n: Seq<char>| #![trigger find_table(out, n)] find_table(out, n) == (if n
        == t.name {
        Some(t)
    } else {
        find_table(tables, n)
    }) by {
        lemma_find_table(out, n);
        lemma_find_table(tables, n);
        if n == t.name {
            assert(out[idx] == t);
            assert(find_table(out, n) == Some(out[idx]));
        } else {
            match find_table(tables, n) {
                Some(x) => {
                    let i = choose|i: int|
                        0 <= i < tables.len() && #[trigger] tables[i] == x && x.name == n;
                    if i < idx {
                        assert(out[i] == tables[i]);
                        assert(find_table(out, n) == Some(out[i]));
                    } else {
                        assert(out[i + 1] == tables[i]);
                        assert(find_table(out, n) == Some(out[i + 1]));
                    }
                },
                None => {
                    assert forall|i: int|
                        0 <= i < out.len() implies (#[trigger] out[i]).name != n by {
                        if i < idx {
                            assert(out[i] == tables[i]);
                        } else if i == idx {
                        } else {
                            assert(out[i] == tables[i - 1]);
                        }
                    }
                },
            }
        }
    }
}

/// Replacing the table at one position by one of the same name keeps the
/// order and changes `find_table` only at that name.
pub proof fn lemma_table_update(tables: Seq<TableModel>, idx: int, t: TableModel)
    requires
        tables_sorted(tables),
        0 <= idx < tables.len(),
        t.name == tables[idx].name,
    ensures
        tables_sorted(tables.update(idx, t)),
        forall|n: Seq<char>| #![trigger find_table(tables.update(idx, t), n)]
            find_table(tables.update(idx, t), n) == if n == t.name {
                Some(t)
            } else {
                find_table(tables, n)
            },
{
    let out = tables.update(idx, t);
    assert forall|i: int, j: int|
        0 <= i < j < out.len() implies seq_lt(#[trigger] out[i].name, #[trigger] out[j].name) by {
        assert(out[i] == if i == idx { t } else { tables[i] });
        assert(out[j] == if j == idx { t } else { tables[j] });
    }
    assert forall|n: Seq<char>| #![trigger find_table(out, n)] find_table(out, n) == (if n
        == t.name {
        Some(t)
    } else {
        find_table(tables, n)
    }) by {
        lemma_find_table(out, n);
        lemma_find_table(tables, n);
        if n == t.name {
            assert(out[idx] == t);
            assert(find_table(out, n) == Some(out[idx]));
        } else {
            match find_table(tables, n) {
                Some(x) => {
                    let i = choose|i: int|
                        0 <= i < tables.len() && #[trigger] tables[i] == x && x.name == n;
                    assert(out[i] == tables[i]);
                    assert(find_table(out, n) == Some(out[i]));
                },
                None => {
                    assert forall|i: int|
                        0 <= i < out.len() implies (#[trigger] out[i]).name != n by {
                        if i != idx {
                            assert(out[i] == tables[i]);
                        }
                    }
                },
            }
        }
    }
}


impl Clone for ConfigItem {
    /// A deep copy with the same model.
    fn clone(&self) -> (res: Self)
        ensures
            res@ == self@,
    {
        ConfigItem {
            key: self.key.clone(),
            value: self.value.clone(),
            comments: self.comments.clone(),
        }
    }
}

/// The models of a vector of items.
pub open spec fn imodel(items: Seq<ConfigItem>) -> Seq<ItemModel> {
    items.map_values(|it: ConfigItem| it@)
}

/// The models of a vector of tables.
pub open spec fn tmodel(tables: Seq<NamedTable>) -> Seq<TableModel> {
    tables.map_values(|t: NamedTable| t@)
}

/// Copies a vector of items.
fn clone_items(items: &Vec<ConfigItem>) -> (r: Vec<ConfigItem>)
    ensures
        imodel(r@) == imodel(items@),
{
    let mut r: Vec<ConfigItem> = Vec::new();
    let mut i: usize = 0;
    while i < items.len()
        invariant
            i <= items@.len(),
            r@.len() == i,
            forall|k: int| 0 <= k < i ==> (#[trigger] r@[k])@ == items@[k]@,
        decreases items@.len() - i,
    {
        r.push(items[i].clone());
        i = i + 1;
    }
    proof {
        assert(imodel(r@) =~= imodel(items@));
    }
    r
}

impl Clone for NamedTable {
    /// A deep copy with the same model.
    fn clone(&self) -> (res: Self)
        ensures
            res@ == self@,
    {
        let res = NamedTable {
            name: self.name.clone(),
            comments: self.comments.clone(),
            items: clone_items(&self.items),
        };
        proof {
            assert(res@ =~= self@);
        }
        res
    }
}

/// The index of the item of the given key, in a sorted item vector.
#[verifier::loop_isolation(false)]
fn find_index(items: &Vec<ConfigItem>, key: &str) -> (r: Option<usize>)
    requires
        items_sorted(imodel(items@)),
    ensures
        match r {
            Some(i) => i < items@.len() && imodel(items@)[i as int].key == key@ && find_item(
                imodel(items@),
                key@,
            ) == Some(imodel(items@)[i as int]),
            None => find_item(imodel(items@), key@) is None,
        },
{
    proof {
        lemma_find_item(imodel(items@), key@);
    }
    let mut i: usize = 0;
    while i < items.len()
        invariant
            i <= items@.len(),
            forall|j: int| 0 <= j < i ==> (#[trigger] imodel(items@)[j]).key != key@,
        decreases items@.len() - i,
    {
        if str_eq(items[i].key.as_str(), key) {
            proof {
                assert(imodel(items@)[i as int] == items@[i as int]@);
                assert(imodel(items@)[i as int].key == key@);
                assert(find_item(imodel(items@), key@) == Some(imodel(items@)[i as int]));
            }
            return Some(i);
        }
        proof {
            assert(imodel(items@)[i as int] == items@[i as int]@);
        }
        i = i + 1;
    }
    None
}

/// The index of the table of the given name, in a sorted table vector.
#[verifier::loop_isolation(false)]
fn find_table_index(tables: &Vec<NamedTable>, name: &str) -> (r: Option<usize>)
    requires
        tables_sorted(tmodel(tables@)),
    ensures
        match r {
            Some(i) => i < tables@.len() && tmodel(tables@)[i as int].name == name@ && find_table(
                tmodel(tables@),
                name@,
            ) == Some(tmodel(tables@)[i as int]),
            None => find_table(tmodel(tables@), name@) is None,
        },
{
    proof {
        lemma_find_table(tmodel(tables@), name@);
    }
    let mut i: usize = 0;
    while i < tables.len()
        invariant
            i <= tables@.len(),
            forall|j: int| 0 <= j < i ==> (#[trigger] tmodel(tables@)[j]).name != name@,
        decreases tables@.len() - i,
    {
        if str_eq(tables[i].name.as_str(), name) {
            proof {
                assert(tmodel(tables@)[i as int] == tables@[i as int]@);
                assert(tmodel(tables@)[i as int].name == name@);
                assert(find_table(tmodel(tables@), name@) == Some(tmodel(tables@)[i as int]));
            }
            return Some(i);
        }
        proof {
            assert(tmodel(tables@)[i as int] == tables@[i as int]@);
        }
        i = i + 1;
    }
    None
}

/// Inserts an item, known to be absent, at its sorted position.
#[verifier::loop_isolation(false)]
fn insert_sorted(items: &mut Vec<ConfigItem>, item: ConfigItem)
    requires
        items_wf(imodel(old(items)@)),
        cv_wf(item@.value),
        find_item(imodel(old(items)@), item@.key) is None,
    ensures
        items_wf(imodel(final(items)@)),
        imodel(final(items)@).len() == imodel(old(items)@).len() + 1,
        forall|k: Seq<char>| #![trigger find_item(imodel(final(items)@), k)]
            find_item(imodel(final(items)@), k) == if k == item@.key {
                Some(item@)
            } else {
                find_item(imodel(old(items)@), k)
            },
{
    let ghost m = imodel(old(items)@);
    proof {
        lemma_find_item(m, item@.key);
    }
    let mut idx: usize = 0;
    while idx < items.len() && str_lt(items[idx].key.as_str(), item.key.as_str())
        invariant
            idx <= items@.len(),
            items@ == old(items)@,
            forall|j: int| 0 <= j < idx ==> seq_lt((#[trigger] m[j]).key, item@.key),
        decreases items@.len() - idx,
    {
        idx = idx + 1;
    }
    proof {
        if idx < items@.len() {
            lemma_seq_lt_total(m[idx as int].key, item@.key);
            assert(m[idx as int].key != item@.key);
            assert(seq_lt(item@.key, m[idx as int].key));
        }
        lemma_item_insert(m, idx as int, item@);
    }
    items.insert(idx, item);
    proof {
        assert(imodel(items@) =~= m.insert(idx as int, item@));
        assert forall|i: int|
            0 <= i < imodel(items@).len() implies cv_wf(
            (#[trigger] imodel(items@)[i]).value,
        ) by {
            m.insert_ensures(idx as int, item@);
            if i < idx {
                assert(imodel(items@)[i] == m[i]);
            } else if i > idx {
                assert(imodel(items@)[i] == m[i - 1]);
            }
        }
    }
}

/// Inserts a table, known to be absent, at its sorted position.
#[verifier::loop_isolation(false)]
fn insert_table_sorted(tables: &mut Vec<NamedTable>, table: NamedTable)
    requires
        tables_sorted(tmodel(old(tables)@)),
        find_table(tmodel(old(tables)@), table@.name) is None,
    ensures
        tables_sorted(tmodel(final(tables)@)),
        tmodel(final(tables)@).len() == tmodel(old(tables)@).len() + 1,
        forall|n: Seq<char>| #![trigger find_table(tmodel(final(tables)@), n)]
            find_table(tmodel(final(tables)@), n) == if n == table@.name {
                Some(table@)
            } else {
                find_table(tmodel(old(tables)@), n)
            },
        forall|i: int|
            0 <= i < tmodel(final(tables)@).len() ==> (#[trigger] tmodel(final(tables)@)[i])
                == table@ || exists|j: int|
                0 <= j < tmodel(old(tables)@).len() && tmodel(final(tables)@)[i] == #[trigger] tmodel(
                    old(tables)@,
                )[j],
{
    let ghost m = tmodel(old(tables)@);
    proof {
        lemma_find_table(m, table@.name);
    }
    let mut idx: usize = 0;
    while idx < tables.len() && str_lt(tables[idx].name.as_str(), table.name.as_str())
        invariant
            idx <= tables@.len(),
            tables@ == old(tables)@,
            forall|j: int| 0 <= j < idx ==> seq_lt((#[trigger] m[j]).name, table@.name),
        decreases tables@.len() - idx,
    {
        idx = idx + 1;
    }
    proof {
        if idx < tables@.len() {
            lemma_seq_lt_total(m[idx as int].name, table@.name);
            assert(seq_lt(table@.name, m[idx as int].name));
        }
        lemma_table_insert(m, idx as int, table@);
    }
    let ghost tv = table@;
    tables.insert(idx, table);
    proof {
        assert(tmodel(tables@) =~= m.insert(idx as int, tv));
        m.insert_ensures(idx as int, tv);
        assert forall|i: int|
            0 <= i < tmodel(tables@).len() implies (#[trigger] tmodel(tables@)[i]) == tv || exists|
            j: int,
        | 0 <= j < m.len() && tmodel(tables@)[i] == #[trigger] m[j] by {
            if i < idx {
                assert(tmodel(tables@)[i] == m[i]);
            } else if i > idx {
                assert(tmodel(tables@)[i] == m[i - 1]);
            }
        }
    }
}


/// `find_item` over an appended item: the old result, or the new item where
/// nothing bore its key.
pub proof fn lemma_find_push(items: Seq<ItemModel>, x: ItemModel, k: Seq<char>)
    ensures
        find_item(items.push(x), k) == match find_item(items, k) {
            Some(y) => Some(y),
            None => if x.key == k {
                Some(x)
            } else {
                None
            },
        },
    decreases items.len(),
{
    if items.len() == 0 {
        assert(items.push(x)[0] == x);
        assert(items.push(x).skip(1) =~= Seq::<ItemModel>::empty());
        assert(find_item(items, k) is None);
        if x.key == k {
            assert(find_item(items.push(x), k) == Some(x));
        } else {
            assert(find_item(items.push(x), k) == find_item(Seq::<ItemModel>::empty(), k));
        }
    } else {
        assert(items.push(x)[0] == items[0]);
        assert(items.push(x).skip(1) =~= items.skip(1).push(x));
        lemma_find_push(items.skip(1), x, k);
        if items[0].key == k {
            assert(find_item(items.push(x), k) == Some(items[0]));
            assert(find_item(items, k) == Some(items[0]));
        } else {
            assert(find_item(items.push(x), k) == find_item(items.skip(1).push(x), k));
            assert(find_item(items, k) == find_item(items.skip(1), k));
        }
    }
}

/// Joins the items of one table with a second, key-disjoint, table.
#[verifier::loop_isolation(false)]
fn merge_items(a: &Vec<ConfigItem>, b: &Vec<ConfigItem>) -> (r: Vec<ConfigItem>)
    requires
        items_wf(imodel(a@)),
        items_wf(imodel(b@)),
        forall|k: Seq<char>|
            !((#[trigger] find_item(imodel(a@), k)) is Some && find_item(imodel(b@), k) is Some),
    ensures
        items_wf(imodel(r@)),
        forall|k: Seq<char>| #![trigger find_item(imodel(r@), k)]
            find_item(imodel(r@), k) == match find_item(imodel(a@), k) {
                Some(x) => Some(x),
                None => find_item(imodel(b@), k),
            },
{
    let ghost bm = imodel(b@);
    let mut r = clone_items(a);
    let mut i: usize = 0;
    proof {
        assert(bm.subrange(0, 0) =~= Seq::<ItemModel>::empty());
    }
    while i < b.len()
        invariant
            i <= b@.len(),
            items_wf(imodel(r@)),
            forall|k: Seq<char>| #![trigger find_item(imodel(r@), k)]
                find_item(imodel(r@), k) == match find_item(imodel(a@), k) {
                    Some(x) => Some(x),
                    None => find_item(bm.subrange(0, i as int), k),
                },
        decreases b@.len() - i,
    {
        let ghost pre = bm.subrange(0, i as int);
        proof {
            assert(bm[i as int] == b@[i as int]@);
            lemma_find_item(bm, bm[i as int].key);
            assert(find_item(bm, bm[i as int].key) == Some(bm[i as int]));
            assert(find_item(imodel(a@), bm[i as int].key) is None);
            lemma_find_item(pre, bm[i as int].key);
            assert forall|j: int| 0 <= j < pre.len() implies (#[trigger] pre[j]).key
                != bm[i as int].key by {
                assert(pre[j] == bm[j]);
                assert(seq_lt(bm[j].key, bm[i as int].key));
                lemma_seq_lt_total(bm[j].key, bm[i as int].key);
            }
            assert(find_item(pre, bm[i as int].key) is None);
            assert(find_item(imodel(r@), bm[i as int].key) is None);
            assert(cv_wf(bm[i as int].value));
        }
        insert_sorted(&mut r, b[i].clone());
        proof {
            assert(bm.subrange(0, i + 1) =~= pre.push(bm[i as int]));
            assert forall|k: Seq<char>| #![trigger find_item(imodel(r@), k)] true implies {
                find_item(imodel(r@), k) == match find_item(imodel(a@), k) {
                    Some(x) => Some(x),
                    None => find_item(bm.subrange(0, i + 1), k),
                }
            } by {
                lemma_find_push(pre, bm[i as int], k);
                assert(find_item(bm.subrange(0, i + 1), k) == find_item(pre.push(bm[i as int]), k));
            }
        }
        i = i + 1;
    }
    proof {
        assert(bm.subrange(0, b@.len() as int) =~= bm);
    }
    r
}

/// A structure storing all configuration items: a global table, and any
/// number of named tables, each a map from key to item, kept in
/// lexicographic order.
#[derive(Debug)]
pub struct Config {
    global: Vec<ConfigItem>,
    tables: Vec<NamedTable>,
}

impl View for Config {
    type V = ConfigModel;

    closed spec fn view(&self) -> ConfigModel {
        ConfigModel { global: imodel(self.global@), tables: tmodel(self.tables@) }
    }
}

/// Whether one configuration holds no (table, key) pair of another.
pub open spec fn pair_clash(a: ConfigModel, b: ConfigModel, t: Seq<char>, k: Seq<char>) -> bool {
    lookup(a, t, k) is Some && lookup(b, t, k) is Some
}

/// Two configurations are disjoint when no (table, key) pair is present in
/// both.
pub open spec fn config_disjoint(a: ConfigModel, b: ConfigModel) -> bool {
    forall|t: Seq<char>, k: Seq<char>| !(#[trigger] pair_clash(a, b, t, k))
}

/// Whether the key is defined by both configurations under some table.
pub open spec fn names_clashing_key(a: ConfigModel, b: ConfigModel, k: Seq<char>) -> bool {
    exists|t: Seq<char>| #[trigger] pair_clash(a, b, t, k)
}

/// What a successful merge holds, item-wise: every lookup in the result is
/// the first configuration's answer, or failing that the second's.
pub open spec fn merge_lookups(a: ConfigModel, b: ConfigModel, m: ConfigModel) -> bool {
    forall|t: Seq<char>, k: Seq<char>| #![trigger lookup(m, t, k)]
        lookup(m, t, k) == match lookup(a, t, k) {
            Some(x) => Some(x),
            None => lookup(b, t, k),
        }
}

/// What a successful merge holds, table-wise: a named table exists in the
/// result exactly when either side has it, under its name, with the first
/// side's documentation where the first side has the table.
pub open spec fn merge_tables_shape(a: ConfigModel, b: ConfigModel, m: ConfigModel) -> bool {
    forall|n: Seq<char>| #![trigger find_table(m.tables, n)]
        match find_table(m.tables, n) {
            Some(tm) => tm.name == n && match (find_table(a.tables, n), find_table(b.tables, n)) {
                (Some(ta), _) => tm.comments == ta.comments,
                (None, Some(tb)) => tm.comments == tb.comments,
                (None, None) => false,
            },
            None => find_table(a.tables, n) is None && find_table(b.tables, n) is None,
        }
}

impl Config {
    /// Creates a new empty configuration.
    pub fn new() -> (r: Config)
        ensures
            r@ == (ConfigModel { global: Seq::empty(), tables: Seq::empty() }),
            cfg_wf(r@),
    {
        let r = Config { global: Vec::new(), tables: Vec::new() };
        proof {
            assert(r@.global =~= Seq::<ItemModel>::empty());
            assert(r@.tables =~= Seq::<TableModel>::empty());
        }
        r
    }

    /// The global table, in ascending key order.
    pub fn global_table(&self) -> (r: &Vec<ConfigItem>)
        ensures
            imodel(r@) == self@.global,
    {
        &self.global
    }

    /// The named tables, in ascending name order.
    pub fn tables(&self) -> (r: &Vec<NamedTable>)
        ensures
            tmodel(r@) == self@.tables,
    {
        &self.tables
    }

    /// The named table of the given name, if present.
    pub fn table_at(&self, name: &str) -> (r: Option<&NamedTable>)
        requires
            cfg_wf(self@),
        ensures
            match r {
                Some(t) => find_table(self@.tables, name@) == Some(t@),
                None => find_table(self@.tables, name@) is None,
            },
    {
        match find_table_index(&self.tables, name) {
            Some(i) => Some(&self.tables[i]),
            None => None,
        }
    }

    /// The comments of the named table of the given name, if present.
    pub fn table_comments_at(&self, name: &str) -> (r: Option<&str>)
        requires
            cfg_wf(self@),
        ensures
            match r {
                Some(s) => find_table(self@.tables, name@) matches Some(t) && t.comments == s@,
                None => find_table(self@.tables, name@) is None,
            },
    {
        match find_table_index(&self.tables, name) {
            Some(i) => Some(self.tables[i].comments.as_str()),
            None => None,
        }
    }

    /// The item under the given table name and key; the reserved name
    /// addresses the global table.
    pub fn config_at(&self, table: &str, key: &str) -> (r: Option<&ConfigItem>)
        requires
            cfg_wf(self@),
        ensures
            match r {
                Some(it) => lookup(self@, table@, key@) == Some(it@),
                None => lookup(self@, table@, key@) is None,
            },
    {
        if str_eq(table, GLOBAL_TABLE_NAME) {
            match find_index(&self.global, key) {
                Some(i) => Some(&self.global[i]),
                None => None,
            }
        } else {
            match find_table_index(&self.tables, table) {
                Some(ti) => match find_index(&self.tables[ti].items, key) {
                    Some(i) => Some(&self.tables[ti].items[i]),
                    None => None,
                },
                None => None,
            }
        }
    }

    /// Creates a new, empty named table with its documentation.  Fails on
    /// the reserved global name and on a name already in use.
    pub fn new_table(&mut self, name: &str, comments: &str) -> (r: ConfigResult<()>)
        requires
            cfg_wf(old(self)@),
        ensures
            cfg_wf(final(self)@),
            match r {
                Ok(_) => {
                    &&& name@ != GLOBAL_TABLE_NAME@
                    &&& find_table(old(self)@.tables, name@) is None
                    &&& final(self)@.global == old(self)@.global
                    &&& forall|n: Seq<char>| #![trigger find_table(final(self)@.tables, n)]
                        find_table(final(self)@.tables, n) == if n == name@ {
                            Some(TableModel { name: name@, comments: comments@, items: Seq::empty() })
                        } else {
                            find_table(old(self)@.tables, n)
                        }
                },
                Err(e) => {
                    &&& final(self)@ == old(self)@
                    &&& (name@ == GLOBAL_TABLE_NAME@ ==> e is Other)
                    &&& (name@ != GLOBAL_TABLE_NAME@ ==> ((e matches ConfigErr::DuplicateTable(nm)
                        && nm@ == name@) && find_table(old(self)@.tables, name@) is Some))
                },
            },
    {
        if str_eq(name, GLOBAL_TABLE_NAME) {
            return Err(ConfigErr::Other(crate::ty::lit_string(
                "the global table name is reserved",
            )));
        }
        match find_table_index(&self.tables, name) {
            Some(_) => Err(ConfigErr::DuplicateTable(crate::ty::lit_string(name))),
            None => {
                let t = NamedTable {
                    name: crate::ty::lit_string(name),
                    comments: crate::ty::lit_string(comments),
                    items: Vec::new(),
                };
                proof {
                    assert(t@.items =~= Seq::<ItemModel>::empty());
                    assert(t@ == (TableModel {
                        name: name@,
                        comments: comments@,
                        items: Seq::<ItemModel>::empty(),
                    }));
                }
                insert_table_sorted(&mut self.tables, t);
                Ok(())
            },
        }
    }

    /// Merges another configuration into this one: missing tables are
    /// created (with the other side's documentation), and every item of the
    /// other side is inserted.  A key both sides define makes the whole
    /// merge fail with `DuplicateKey`, leaving this configuration unchanged.
    #[verifier::loop_isolation(false)]
    pub fn merge(&mut self, other: &Config) -> (r: ConfigResult<()>)
        requires
            cfg_wf(old(self)@),
            cfg_wf(other@),
        ensures
            cfg_wf(final(self)@),
            match r {
                Ok(_) => {
                    &&& config_disjoint(old(self)@, other@)
                    &&& merge_lookups(old(self)@, other@, final(self)@)
                    &&& merge_tables_shape(old(self)@, other@, final(self)@)
                },
                Err(e) => {
                    &&& final(self)@ == old(self)@
                    &&& !config_disjoint(old(self)@, other@)
                    &&& e is DuplicateKey
                    &&& names_clashing_key(old(self)@, other@, e->DuplicateKey_0@)
                },
            },
    {
        let ghost a = old(self)@;
        let ghost b = other@;
        // First pass: find any colliding key, touching nothing.
        let mut gi: usize = 0;
        while gi < other.global.len()
            invariant
                gi <= other.global@.len(),
                self@ == a,
                forall|j: int|
                    0 <= j < gi ==> find_item(a.global, (#[trigger] b.global[j]).key) is None,
            decreases other.global@.len() - gi,
        {
            proof {
                assert(b.global[gi as int] == other.global@[gi as int]@);
            }
            if let Some(_) = find_index(&self.global, other.global[gi].key.as_str()) {
                let dup = other.global[gi].key.clone();
                proof {
                    assert(pair_clash(a, b, GLOBAL_TABLE_NAME@, dup@)) by {
                        lemma_find_item(b.global, b.global[gi as int].key);
                    }
                    assert(names_clashing_key(a, b, dup@));
                }
                return Err(ConfigErr::DuplicateKey(dup));
            }
            gi = gi + 1;
        }
        let mut oti: usize = 0;
        while oti < other.tables.len()
            invariant
                oti <= other.tables@.len(),
                self@ == a,
                forall|tj: int, j: int|
                    0 <= tj < oti && 0 <= j < b.tables[tj].items.len() ==> match find_table(
                        a.tables,
                        (#[trigger] b.tables[tj]).name,
                    ) {
                        Some(ta) => find_item(
                            ta.items,
                            (#[trigger] b.tables[tj].items[j]).key,
                        ) is None,
                        None => true,
                    },
            decreases other.tables@.len() - oti,
        {
            proof {
                assert(b.tables[oti as int] == other.tables@[oti as int]@);
            }
            let ot = &other.tables[oti];
            if let Some(sti) = find_table_index(&self.tables, ot.name.as_str()) {
                let st = &self.tables[sti];
                let mut j: usize = 0;
                while j < ot.items.len()
                    invariant
                        j <= ot.items@.len(),
                        self@ == a,
                        find_table(a.tables, b.tables[oti as int].name) == Some(
                            a.tables[sti as int],
                        ),
                        sti < self.tables@.len(),
                        st == &self.tables@[sti as int],
                        ot == &other.tables@[oti as int],
                        forall|jj: int|
                            0 <= jj < j ==> find_item(
                                a.tables[sti as int].items,
                                (#[trigger] b.tables[oti as int].items[jj]).key,
                            ) is None,
                    decreases ot.items@.len() - j,
                {
                    proof {
                        assert(b.tables[oti as int].items[j as int] == ot.items@[j as int]@);
                    }
                    if let Some(_) = find_index(&st.items, ot.items[j].key.as_str()) {
                        let dup = ot.items[j].key.clone();
                        proof {
                            let t = b.tables[oti as int].name;
                            assert(pair_clash(a, b, t, dup@)) by {
                                lemma_find_item(b.tables[oti as int].items, dup@);
                                assert(t != GLOBAL_TABLE_NAME@);
                                lemma_find_table(b.tables, t);
                            }
                            assert(names_clashing_key(a, b, dup@));
                        }
                        return Err(ConfigErr::DuplicateKey(dup));
                    }
                    j = j + 1;
                }
            }
            oti = oti + 1;
        }
        proof {
            assert forall|t: Seq<char>, k: Seq<char>| true implies !(#[trigger] pair_clash(
                a,
                b,
                t,
                k,
            )) by {
                if pair_clash(a, b, t, k) {
                    if t == GLOBAL_TABLE_NAME@ {
                        lemma_find_item(b.global, k);
                        let j = choose|j: int|
                            0 <= j < b.global.len() && #[trigger] b.global[j] == find_item(
                                b.global,
                                k,
                            )->Some_0 && find_item(b.global, k)->Some_0.key == k;
                        assert(find_item(a.global, b.global[j].key) is None);
                    } else {
                        lemma_find_table(b.tables, t);
                        let tj = choose|tj: int|
                            0 <= tj < b.tables.len() && #[trigger] b.tables[tj] == find_table(
                                b.tables,
                                t,
                            )->Some_0 && find_table(b.tables, t)->Some_0.name == t;
                        lemma_find_item(b.tables[tj].items, k);
                        let j = choose|j: int|
                            0 <= j < b.tables[tj].items.len() && #[trigger] b.tables[tj].items[j]
                                == find_item(b.tables[tj].items, k)->Some_0 && find_item(
                                b.tables[tj].items,
                                k,
                            )->Some_0.key == k;
                        assert(match find_table(a.tables, b.tables[tj].name) {
                            Some(ta) => find_item(ta.items, b.tables[tj].items[j].key) is None,
                            None => true,
                        });
                    }
                }
            }
            assert(config_disjoint(a, b));
        }
        // Second pass: insert, which can no longer fail.
        proof {
            assert forall|k: Seq<char>| true implies !((#[trigger] find_item(
                imodel(self.global@),
                k,
            )) is Some && find_item(imodel(other.global@), k) is Some) by {
                assert(!pair_clash(a, b, GLOBAL_TABLE_NAME@, k));
            }
        }
        let merged_global = merge_items(&self.global, &other.global);
        self.global = merged_global;
        let ghost g_after = imodel(self.global@);
        let mut ti: usize = 0;
        proof {
            assert(self@.tables == a.tables);
            assert forall|n: Seq<char>| #![trigger find_table(self@.tables, n)] true implies {
                match find_table(self@.tables, n) {
                    Some(tm) => tm.name == n && match (
                        find_table(a.tables, n),
                        find_table(b.tables, n),
                    ) {
                        (Some(ta), Some(tb)) => tm.comments == ta.comments && (forall|k: Seq<char>|
                            #![trigger find_item(tm.items, k)]
                            find_item(tm.items, k) == match find_item(ta.items, k) {
                                Some(x) => Some(x),
                                None => if table_done(b, n, 0) {
                                    find_item(tb.items, k)
                                } else {
                                    None
                                },
                            }),
                        (Some(ta), None) => tm.comments == ta.comments && (forall|k: Seq<char>|
                            #![trigger find_item(tm.items, k)]
                            find_item(tm.items, k) == find_item(ta.items, k)),
                        (None, Some(tb)) => table_done(b, n, 0) && tm.comments == tb.comments && (
                        forall|k: Seq<char>| #![trigger find_item(tm.items, k)]
                            find_item(tm.items, k) == find_item(tb.items, k)),
                        (None, None) => false,
                    },
                    None => find_table(a.tables, n) is None && (find_table(b.tables, n) is Some
                        ==> !table_done(b, n, 0)),
                }
            } by {
                lemma_find_table(a.tables, n);
                assert(!table_done(b, n, 0));
            }
        }
        while ti < other.tables.len()
            invariant
                ti <= other.tables@.len(),
                config_disjoint(a, b),
                cfg_wf(self@),
                cfg_wf(b),
                self@.global == g_after,
                forall|k: Seq<char>| #![trigger find_item(self@.global, k)]
                    find_item(self@.global, k) == match find_item(a.global, k) {
                        Some(x) => Some(x),
                        None => find_item(b.global, k),
                    },
                forall|n: Seq<char>| #![trigger find_table(self@.tables, n)]
                    match find_table(self@.tables, n) {
                        Some(tm) => tm.name == n && match (
                            find_table(a.tables, n),
                            find_table(b.tables, n),
                        ) {
                            (Some(ta), Some(tb)) => tm.comments == ta.comments && (forall|
                                k: Seq<char>,
                            | #![trigger find_item(tm.items, k)]
                                find_item(tm.items, k) == match find_item(ta.items, k) {
                                    Some(x) => Some(x),
                                    None => if table_done(b, n, ti as int) {
                                        find_item(tb.items, k)
                                    } else {
                                        None
                                    },
                                }),
                            (Some(ta), None) => tm.comments == ta.comments && (forall|k: Seq<char>|
                                #![trigger find_item(tm.items, k)]
                                find_item(tm.items, k) == find_item(ta.items, k)),
                            (None, Some(tb)) => table_done(b, n, ti as int) && tm.comments
                                == tb.comments && (forall|k: Seq<char>|
                                #![trigger find_item(tm.items, k)]
                                find_item(tm.items, k) == find_item(tb.items, k)),
                            (None, None) => false,
                        },
                        None => find_table(a.tables, n) is None && (find_table(b.tables, n) is Some
                            ==> !table_done(b, n, ti as int)),
                    },
            decreases other.tables@.len() - ti,
        {
            proof {
                assert(b.tables[ti as int] == other.tables@[ti as int]@);
                lemma_find_table(b.tables, b.tables[ti as int].name);
                assert(find_table(b.tables, b.tables[ti as int].name) == Some(
                    b.tables[ti as int],
                ));
            }
            let ot = &other.tables[ti];
            let ghost n0 = b.tables[ti as int].name;
            match find_table_index(&self.tables, ot.name.as_str()) {
                Some(sti) => {
                    proof {
                        assert(!table_done(b, n0, ti as int)) by {
                            assert forall|j: int|
                                0 <= j < ti implies (#[trigger] b.tables[j]).name != n0 by {
                                lemma_seq_lt_total(b.tables[j].name, n0);
                            }
                        }
                        assert(find_table(a.tables, n0) is Some);
                        let ta = find_table(a.tables, n0)->Some_0;
                        let tb = b.tables[ti as int];
                        assert(n0 != GLOBAL_TABLE_NAME@);
                        assert(find_table(self@.tables, n0) == Some(tmodel(self.tables@)[sti as int]));
                        assert(tmodel(self.tables@)[sti as int].items == imodel(
                            self.tables@[sti as int].items@,
                        ));
                        assert forall|k: Seq<char>| true implies !((#[trigger] find_item(
                            imodel(self.tables@[sti as int].items@),
                            k,
                        )) is Some && find_item(tb.items, k) is Some) by {
                            if find_item(tb.items, k) is Some {
                                assert(!pair_clash(a, b, n0, k));
                                assert(lookup(b, n0, k) == find_item(tb.items, k));
                                assert(lookup(a, n0, k) is None);
                                assert(find_item(ta.items, k) is None);
                                let tm = tmodel(self.tables@)[sti as int];
                                assert(find_item(tm.items, k) == match find_item(ta.items, k) {
                                    Some(x) => Some(x),
                                    None => if table_done(b, n0, ti as int) {
                                        find_item(tb.items, k)
                                    } else {
                                        None
                                    },
                                });
                            }
                        }
                    }
                    let merged = merge_items(&self.tables[sti].items, &ot.items);
                    let nt = NamedTable {
                        name: self.tables[sti].name.clone(),
                        comments: self.tables[sti].comments.clone(),
                        items: merged,
                    };
                    let ghost old_tables = tmodel(self.tables@);
                    let ghost ntv = nt@;
                    proof {
                        lemma_table_update(old_tables, sti as int, ntv);
                    }
                    let _replaced = self.tables.remove(sti);
                    self.tables.insert(sti, nt);
                    proof {
                        assert(tmodel(self.tables@) =~= old_tables.update(sti as int, ntv));
                    }
                },
                None => {
                    proof {
                        assert(!table_done(b, n0, ti as int)) by {
                            assert forall|j: int|
                                0 <= j < ti implies (#[trigger] b.tables[j]).name != n0 by {
                                lemma_seq_lt_total(b.tables[j].name, n0);
                            }
                        }
                        assert(find_table(a.tables, n0) is None);
                    }
                    let nt = ot.clone();
                    proof {
                        assert(nt@ == b.tables[ti as int]);
                    }
                    insert_table_sorted(&mut self.tables, nt);
                },
            }
            proof {
                assert forall|n: Seq<char>| #![trigger table_done(b, n, ti + 1)]
                    table_done(b, n, ti + 1) == (table_done(b, n, ti as int) || n == n0) by {
                    if table_done(b, n, ti as int) || n == n0 {
                        if n == n0 {
                            assert(b.tables[ti as int].name == n);
                        }
                        assert(table_done(b, n, ti + 1));
                    }
                }
            }
            ti = ti + 1;
        }
        proof {
            assert forall|n: Seq<char>| #![trigger find_table(b.tables, n)]
                find_table(b.tables, n) is Some implies table_done(
                b,
                n,
                b.tables.len() as int,
            ) by {
                lemma_find_table(b.tables, n);
                let i = choose|i: int|
                    0 <= i < b.tables.len() && #[trigger] b.tables[i] == find_table(
                        b.tables,
                        n,
                    )->Some_0 && find_table(b.tables, n)->Some_0.name == n;
                assert(b.tables[i].name == n);
            }
            assert forall|t: Seq<char>, k: Seq<char>| #![trigger lookup(final(self)@, t, k)] true
                implies lookup(final(self)@, t, k) == match lookup(a, t, k) {
                Some(x) => Some(x),
                None => lookup(b, t, k),
            } by {
                if t != GLOBAL_TABLE_NAME@ {
                    match find_table(self@.tables, t) {
                        Some(tm) => {
                            assert(find_item(tm.items, k) == find_item(tm.items, k));
                        },
                        None => {},
                    }
                }
            }
        }
        Ok(())
    }
}

/// Whether the merge loop has already carried over the other side's table of
/// the given name: it has one among its first `i` tables.
pub open spec fn table_done(b: ConfigModel, n: Seq<char>, i: int) -> bool {
    exists|j: int| 0 <= j < i && j < b.tables.len() && (#[trigger] b.tables[j]).name == n
}


/// The value an item holds after reconciliation against an old item: with a
/// declared type, the old value is adopted exactly when it satisfies that
/// type, which is retained; without one, the value stands unchanged.
pub open spec fn value_after_update(cur: ItemModel, oldv: Option<ItemModel>) -> CfgValModel {
    match (cur.value.ty, oldv) {
        (Some(t), Some(oi)) => if matches_spec(oi.value.value, t) {
            CfgValModel { value: oi.value.value, ty: Some(t) }
        } else {
            cur.value
        },
        _ => cur.value,
    }
}

/// An item after reconciliation: key and comments kept, value as
/// [`value_after_update`].
pub open spec fn item_updated(cur: ItemModel, oldv: Option<ItemModel>) -> ItemModel {
    ItemModel { key: cur.key, comments: cur.comments, value: value_after_update(cur, oldv) }
}

/// Update type-gating: an item with no declared type is never altered; one
/// with a declared type adopts the old value exactly when that value
/// satisfies the type, which is retained.
pub proof fn lemma_update_gating(cur: ItemModel, oldv: Option<ItemModel>)
    ensures
        cur.value.ty is None ==> item_updated(cur, oldv).value == cur.value,
        item_updated(cur, oldv).key == cur.key,
        match (cur.value.ty, oldv) {
            (Some(t), Some(oi)) => item_updated(cur, oldv).value == if matches_spec(
                oi.value.value,
                t,
            ) {
                CfgValModel { value: oi.value.value, ty: Some(t) }
            } else {
                cur.value
            },
            _ => item_updated(cur, oldv).value == cur.value,
        },
{
}

/// A declared type the old configuration's value cannot satisfy.
pub open spec fn update_mismatch_at(
    c: ConfigModel,
    o: ConfigModel,
    t: Seq<char>,
    k: Seq<char>,
) -> bool {
    match (lookup(c, t, k), lookup(o, t, k)) {
        (Some(ci), Some(oi)) => match ci.value.ty {
            Some(ty) => !matches_spec(oi.value.value, ty),
            None => false,
        },
        _ => false,
    }
}

/// Whether some table holds the key, with the given expected-type text, at
/// which the old configuration's value contradicts the declared type.
pub open spec fn names_mismatched_key(
    c: ConfigModel,
    o: ConfigModel,
    k: Seq<char>,
    ex: Seq<char>,
) -> bool {
    exists|t: Seq<char>|
        #[trigger] update_mismatch_at(c, o, t, k) && (lookup(c, t, k) matches Some(ci) && (
        ci.value.ty matches Some(dt) && ex == crate::ty::ty_text(dt)))
}

/// No item's declared type is contradicted by the old configuration.
pub open spec fn update_clean(c: ConfigModel, o: ConfigModel) -> bool {
    forall|t: Seq<char>, k: Seq<char>| !(#[trigger] update_mismatch_at(c, o, t, k))
}

/// What a successful update leaves behind: the same tables, keys and
/// comments, every value reconciled by [`value_after_update`].
pub open spec fn update_applied(c: ConfigModel, o: ConfigModel, f: ConfigModel) -> bool {
    &&& f.global.len() == c.global.len()
    &&& forall|i: int| #![trigger f.global[i]]
        0 <= i < c.global.len() ==> f.global[i] == item_updated(
            c.global[i],
            lookup(o, GLOBAL_TABLE_NAME@, c.global[i].key),
        )
    &&& f.tables.len() == c.tables.len()
    &&& forall|ti: int| #![trigger f.tables[ti]]
        0 <= ti < c.tables.len() ==> f.tables[ti].name == c.tables[ti].name
            && f.tables[ti].comments == c.tables[ti].comments && f.tables[ti].items.len()
            == c.tables[ti].items.len() && (forall|ii: int| #![trigger f.tables[ti].items[ii]]
            0 <= ii < c.tables[ti].items.len() ==> f.tables[ti].items[ii] == item_updated(
                c.tables[ti].items[ii],
                lookup(o, c.tables[ti].name, c.tables[ti].items[ii].key),
            ))
}

/// `find_item` over a reconciled item vector: the reconciliation of what
/// `find_item` yields on the original.
proof fn lemma_find_item_updated(
    cs: Seq<ItemModel>,
    fs: Seq<ItemModel>,
    o: ConfigModel,
    tname: Seq<char>,
    k: Seq<char>,
)
    requires
        fs.len() == cs.len(),
        forall|i: int|
            0 <= i < cs.len() ==> #[trigger] fs[i] == item_updated(
                cs[i],
                lookup(o, tname, cs[i].key),
            ),
    ensures
        find_item(fs, k) == match find_item(cs, k) {
            Some(ci) => Some(item_updated(ci, lookup(o, tname, k))),
            None => None,
        },
    decreases cs.len(),
{
    if cs.len() > 0 {
        assert(fs[0] == item_updated(cs[0], lookup(o, tname, cs[0].key)));
        assert(fs[0].key == cs[0].key);
        if cs[0].key != k {
            let ct = cs.skip(1);
            let ft = fs.skip(1);
            assert(forall|i: int| 0 <= i < ct.len() ==> #[trigger] ct[i] == cs[i + 1]);
            assert(forall|i: int| 0 <= i < ft.len() ==> #[trigger] ft[i] == fs[i + 1]);
            assert forall|i: int| 0 <= i < ct.len() implies #[trigger] ft[i] == item_updated(
                ct[i],
                lookup(o, tname, ct[i].key),
            ) by {
                assert(fs[i + 1] == item_updated(cs[i + 1], lookup(o, tname, cs[i + 1].key)));
            }
            lemma_find_item_updated(ct, ft, o, tname, k);
        }
    }
}

/// `find_table` over two table vectors of equal names: both find at the
/// same position, or neither finds.
proof fn lemma_find_table_same_names(cs: Seq<TableModel>, fs: Seq<TableModel>, t: Seq<char>)
    requires
        fs.len() == cs.len(),
        forall|i: int| 0 <= i < cs.len() ==> (#[trigger] fs[i]).name == cs[i].name,
    ensures
        find_table(fs, t) is Some <==> find_table(cs, t) is Some,
        find_table(cs, t) is Some ==> exists|i: int|
            0 <= i < cs.len() && find_table(cs, t) == Some(#[trigger] cs[i]) && find_table(fs, t)
                == Some(fs[i]),
    decreases cs.len(),
{
    if cs.len() > 0 {
        assert(fs[0].name == cs[0].name);
        if cs[0].name == t {
            assert(find_table(cs, t) == Some(cs[0]) && find_table(fs, t) == Some(fs[0]));
        } else {
            let ct = cs.skip(1);
            let ft = fs.skip(1);
            assert(forall|i: int| 0 <= i < ct.len() ==> #[trigger] ct[i] == cs[i + 1]);
            assert(forall|i: int| 0 <= i < ft.len() ==> #[trigger] ft[i] == fs[i + 1]);
            assert forall|i: int| 0 <= i < ct.len() implies (#[trigger] ft[i]).name
                == ct[i].name by {
                assert(fs[i + 1].name == cs[i + 1].name);
            }
            lemma_find_table_same_names(ct, ft, t);
            if find_table(cs, t) is Some {
                let i = choose|i: int|
                    0 <= i < ct.len() && find_table(ct, t) == Some(#[trigger] ct[i]) && find_table(
                        ft,
                        t,
                    ) == Some(ft[i]);
                assert(find_table(cs, t) == Some(cs[i + 1]) && find_table(fs, t) == Some(
                    fs[i + 1],
                ));
            }
        }
    }
}

/// What a reconciled configuration answers to any lookup: the reconciliation
/// of what the original answers.
pub proof fn lemma_update_applied_lookup(
    c: ConfigModel,
    o: ConfigModel,
    f: ConfigModel,
    t: Seq<char>,
    k: Seq<char>,
)
    requires
        update_applied(c, o, f),
    ensures
        lookup(f, t, k) == match lookup(c, t, k) {
            Some(ci) => Some(item_updated(ci, lookup(o, t, k))),
            None => None,
        },
{
    if t == GLOBAL_TABLE_NAME@ {
        lemma_find_item_updated(c.global, f.global, o, GLOBAL_TABLE_NAME@, k);
    } else {
        lemma_find_table_same_names(c.tables, f.tables, t);
        if find_table(c.tables, t) is Some {
            let i = choose|i: int|
                0 <= i < c.tables.len() && find_table(c.tables, t) == Some(#[trigger] c.tables[i])
                    && find_table(f.tables, t) == Some(f.tables[i]);
            lemma_find_table(c.tables, t);
            assert(c.tables[i].name == t);
            lemma_find_item_updated(c.tables[i].items, f.tables[i].items, o, t, k);
        }
    }
}

/// Update type-gating at the directory level, the adoption half: under a
/// clean reconciliation, an item with declared type `T` whose address the
/// old configuration carries with a value satisfying `T` ends up holding
/// that value, with `T` retained.
pub proof fn lemma_update_adopts(
    c: ConfigModel,
    o: ConfigModel,
    f: ConfigModel,
    t: Seq<char>,
    k: Seq<char>,
)
    requires
        update_clean(c, o),
        update_applied(c, o, f),
        lookup(c, t, k) is Some,
        lookup(c, t, k)->Some_0.value.ty is Some,
        lookup(o, t, k) is Some,
        matches_spec(
            lookup(o, t, k)->Some_0.value.value,
            lookup(c, t, k)->Some_0.value.ty->Some_0,
        ),
    ensures
        lookup(f, t, k) == Some(
            ItemModel {
                key: lookup(c, t, k)->Some_0.key,
                comments: lookup(c, t, k)->Some_0.comments,
                value: CfgValModel {
                    value: lookup(o, t, k)->Some_0.value.value,
                    ty: lookup(c, t, k)->Some_0.value.ty,
                },
            },
        ),
{
    lemma_update_applied_lookup(c, o, f, t, k);
}

/// Update type-gating at the directory level, the other half: an item with
/// no declared type is never altered, whatever the old configuration holds.
pub proof fn lemma_update_keeps_undeclared(
    c: ConfigModel,
    o: ConfigModel,
    f: ConfigModel,
    t: Seq<char>,
    k: Seq<char>,
)
    requires
        update_applied(c, o, f),
        lookup(c, t, k) is Some,
        lookup(c, t, k)->Some_0.value.ty is None,
    ensures
        lookup(f, t, k) == lookup(c, t, k),
{
    lemma_update_applied_lookup(c, o, f, t, k);
    let ci = lookup(c, t, k)->Some_0;
    assert(item_updated(ci, lookup(o, t, k)) =~= ci);
}

/// The models of a vector of (table, key) pairs.
pub open spec fn pairs_model(ps: Seq<(String, String)>) -> Seq<(Seq<char>, Seq<char>)> {
    ps.map_values(|p: (String, String)| (p.0@, p.1@))
}

/// Whether a (table, key) pair is listed.
pub open spec fn pair_in(ps: Seq<(Seq<char>, Seq<char>)>, t: Seq<char>, k: Seq<char>) -> bool {
    exists|i: int| 0 <= i < ps.len() && #[trigger] ps[i] == (t, k)
}

/// Listing one more pair adds exactly it to the listed set.
pub proof fn lemma_pair_push(ps: Seq<(Seq<char>, Seq<char>)>, p: (Seq<char>, Seq<char>))
    ensures
        forall|t: Seq<char>, k: Seq<char>| #![trigger pair_in(ps.push(p), t, k)]
            pair_in(ps.push(p), t, k) <==> (pair_in(ps, t, k) || p == (t, k)),
{
    assert forall|t: Seq<char>, k: Seq<char>| #![trigger pair_in(ps.push(p), t, k)] true implies {
        pair_in(ps.push(p), t, k) <==> (pair_in(ps, t, k) || p == (t, k))
    } by {
        if pair_in(ps.push(p), t, k) {
            let i = choose|i: int| 0 <= i < ps.push(p).len() && #[trigger] ps.push(p)[i] == (t, k);
            if i < ps.len() {
                assert(ps[i] == (t, k));
            }
        }
        if pair_in(ps, t, k) {
            let i = choose|i: int| 0 <= i < ps.len() && #[trigger] ps[i] == (t, k);
            assert(ps.push(p)[i] == (t, k));
        }
        if p == (t, k) {
            assert(ps.push(p)[ps.len() as int] == (t, k));
        }
    }
}

/// A looked-up item of a well-formed configuration holds a well-formed
/// value.
pub proof fn lemma_lookup_wf(m: ConfigModel, t: Seq<char>, k: Seq<char>)
    requires
        cfg_wf(m),
    ensures
        lookup(m, t, k) matches Some(it) ==> cv_wf(it.value),
{
    if lookup(m, t, k) is Some {
        if t == GLOBAL_TABLE_NAME@ {
            lemma_find_item(m.global, k);
        } else {
            lemma_find_table(m.tables, t);
            let ti = choose|ti: int|
                0 <= ti < m.tables.len() && #[trigger] m.tables[ti] == find_table(
                    m.tables,
                    t,
                )->Some_0 && find_table(m.tables, t)->Some_0.name == t;
            lemma_find_item(m.tables[ti].items, k);
        }
    }
}

/// Reconciles one item against the old configuration's item of the same
/// address, if any.
fn apply_item(cur: &ConfigItem, oth: Option<&ConfigItem>) -> (r: ConfigItem)
    requires
        cv_wf(cur@.value),
        oth matches Some(oi) ==> cv_wf(oi@.value),
    ensures
        r@ == item_updated(
            cur@,
            match oth {
                Some(oi) => Some(oi@),
                None => None,
            },
        ),
        cv_wf(r@.value),
{
    match oth {
        Some(oi) => {
            match cur.value.ty() {
                Some(ty) => {
                    if oi.value().type_matches(ty) {
                        match crate::value::ConfigValue::from_raw_value_type(
                            oi.value().raw().clone(),
                            ty.clone(),
                        ) {
                            Ok(v) => ConfigItem::new(cur.key.clone(), v, cur.comments.clone()),
                            Err(_) => {
                                proof {
                                    assert(false);
                                }
                                cur.clone()
                            },
                        }
                    } else {
                        cur.clone()
                    }
                },
                None => cur.clone(),
            }
        },
        None => cur.clone(),
    }
}

impl Config {
    /// Updates the values of this configuration from an old configuration:
    /// an item with a declared type adopts the old value when it satisfies
    /// the type; one without a declared type is never altered; a declared
    /// type the old value cannot satisfy fails the whole update with
    /// `ValueTypeMismatch`, leaving this configuration unchanged.  On
    /// success, returns the untouched items (in this configuration, absent
    /// from the old one) and the extra items (in the old configuration's
    /// known tables, absent here), each as (table, key) pairs.
    #[verifier::loop_isolation(false)]
    #[verifier::rlimit(100)]
    pub fn update(&mut self, other: &Config) -> (r: ConfigResult<
        (Vec<(String, String)>, Vec<(String, String)>),
    >)
        requires
            cfg_wf(old(self)@),
            cfg_wf(other@),
        ensures
            cfg_wf(final(self)@),
            match r {
                Ok(reports) => {
                    &&& update_clean(old(self)@, other@)
                    &&& update_applied(old(self)@, other@, final(self)@)
                    &&& forall|t: Seq<char>, k: Seq<char>|
                        #![trigger pair_in(pairs_model(reports.0@), t, k)]
                        pair_in(pairs_model(reports.0@), t, k) <==> (lookup(old(self)@, t, k)
                            is Some && lookup(other@, t, k) is None)
                    &&& forall|t: Seq<char>, k: Seq<char>|
                        #![trigger pair_in(pairs_model(reports.1@), t, k)]
                        pair_in(pairs_model(reports.1@), t, k) <==> ((t == GLOBAL_TABLE_NAME@
                            || find_table(old(self)@.tables, t) is Some) && lookup(other@, t, k)
                            is Some && lookup(old(self)@, t, k) is None)
                },
                Err(e) => {
                    &&& final(self)@ == old(self)@
                    &&& !update_clean(old(self)@, other@)
                    &&& e is ValueTypeMismatch
                    &&& names_mismatched_key(
                        old(self)@,
                        other@,
                        e->ValueTypeMismatch_0@,
                        e->ValueTypeMismatch_1@,
                    )
                },
            },
    {
        let ghost c = old(self)@;
        let ghost o = other@;
        // First pass: reject the update outright on any type mismatch.
        let mut i: usize = 0;
        while i < self.global.len()
            invariant
                i <= self.global@.len(),
                self@ == c,
                forall|j: int|
                    0 <= j < i ==> !update_mismatch_at(
                        c,
                        o,
                        GLOBAL_TABLE_NAME@,
                        (#[trigger] c.global[j]).key,
                    ),
            decreases self.global@.len() - i,
        {
            let ghost k = c.global[i as int].key;
            proof {
                assert(c.global[i as int] == self.global@[i as int]@);
                lemma_find_item(c.global, k);
                assert(lookup(c, GLOBAL_TABLE_NAME@, k) == Some(c.global[i as int]));
            }
            let it = &self.global[i];
            if let Some(ty) = it.value().ty() {
                if let Some(oi) = other.config_at(GLOBAL_TABLE_NAME, it.key()) {
                    if !oi.value().type_matches(ty) {
                        proof {
                            assert(update_mismatch_at(c, o, GLOBAL_TABLE_NAME@, k));
                        }
                        let key = crate::ty::lit_string(it.key());
                        let ex = ty.to_annot_string();
                        proof {
                            assert(update_mismatch_at(c, o, GLOBAL_TABLE_NAME@, key@));
                            assert(lookup(c, GLOBAL_TABLE_NAME@, key@) == Some(
                                c.global[i as int],
                            ));
                            assert(names_mismatched_key(c, o, key@, ex@));
                        }
                        return Err(ConfigErr::ValueTypeMismatch(key, ex));
                    }
                }
            }
            proof {
                assert(!update_mismatch_at(c, o, GLOBAL_TABLE_NAME@, k));
            }
            i = i + 1;
        }
        let mut ti: usize = 0;
        while ti < self.tables.len()
            invariant
                ti <= self.tables@.len(),
                self@ == c,
                forall|tj: int, j: int|
                    0 <= tj < ti && 0 <= j < c.tables[tj].items.len() ==> !update_mismatch_at(
                        c,
                        o,
                        (#[trigger] c.tables[tj]).name,
                        (#[trigger] c.tables[tj].items[j]).key,
                    ),
            decreases self.tables@.len() - ti,
        {
            let ghost n = c.tables[ti as int].name;
            proof {
                assert(c.tables[ti as int] == self.tables@[ti as int]@);
                lemma_find_table(c.tables, n);
                assert(find_table(c.tables, n) == Some(c.tables[ti as int]));
            }
            let t = &self.tables[ti];
            let mut j: usize = 0;
            while j < t.items.len()
                invariant
                    j <= t.items@.len(),
                    self@ == c,
                    ti < self.tables@.len(),
                    t == &self.tables@[ti as int],
                    n == c.tables[ti as int].name,
                    n != GLOBAL_TABLE_NAME@,
                    find_table(c.tables, n) == Some(c.tables[ti as int]),
                    forall|jj: int|
                        0 <= jj < j ==> !update_mismatch_at(
                            c,
                            o,
                            n,
                            (#[trigger] c.tables[ti as int].items[jj]).key,
                        ),
                decreases t.items@.len() - j,
            {
                let ghost k = c.tables[ti as int].items[j as int].key;
                proof {
                    assert(c.tables[ti as int].items[j as int] == t.items@[j as int]@);
                    lemma_find_item(c.tables[ti as int].items, k);
                    assert(lookup(c, n, k) == Some(c.tables[ti as int].items[j as int]));
                }
                let it = &t.items[j];
                if let Some(ty) = it.value().ty() {
                    if let Some(oi) = other.config_at(t.name.as_str(), it.key()) {
                        if !oi.value().type_matches(ty) {
                            proof {
                                assert(update_mismatch_at(c, o, n, k));
                            }
                            let key = crate::ty::lit_string(it.key());
                            let ex = ty.to_annot_string();
                            proof {
                                assert(update_mismatch_at(c, o, n, key@));
                                assert(lookup(c, n, key@) == Some(
                                    c.tables[ti as int].items[j as int],
                                ));
                                assert(names_mismatched_key(c, o, key@, ex@));
                            }
                            return Err(ConfigErr::ValueTypeMismatch(key, ex));
                        }
                    }
                }
                proof {
                    assert(!update_mismatch_at(c, o, n, k));
                }
                j = j + 1;
            }
            ti = ti + 1;
        }
        proof {
            assert forall|t: Seq<char>, k: Seq<char>| true implies !(#[trigger] update_mismatch_at(
                c,
                o,
                t,
                k,
            )) by {
                if update_mismatch_at(c, o, t, k) {
                    if t == GLOBAL_TABLE_NAME@ {
                        lemma_find_item(c.global, k);
                        let j = choose|j: int|
                            0 <= j < c.global.len() && #[trigger] c.global[j] == find_item(
                                c.global,
                                k,
                            )->Some_0 && find_item(c.global, k)->Some_0.key == k;
                        assert(!update_mismatch_at(c, o, GLOBAL_TABLE_NAME@, c.global[j].key));
                    } else {
                        lemma_find_table(c.tables, t);
                        let tj = choose|tj: int|
                            0 <= tj < c.tables.len() && #[trigger] c.tables[tj] == find_table(
                                c.tables,
                                t,
                            )->Some_0 && find_table(c.tables, t)->Some_0.name == t;
                        lemma_find_item(c.tables[tj].items, k);
                        let j = choose|j: int|
                            0 <= j < c.tables[tj].items.len() && #[trigger] c.tables[tj].items[j]
                                == find_item(c.tables[tj].items, k)->Some_0 && find_item(
                                c.tables[tj].items,
                                k,
                            )->Some_0.key == k;
                        assert(!update_mismatch_at(c, o, c.tables[tj].name, c.tables[tj].items[j].key));
                    }
                }
            }
            assert(update_clean(c, o));
        }
        // Second pass: gather the untouched and extra reports.
        let mut untouched: Vec<(String, String)> = Vec::new();
        let mut extra: Vec<(String, String)> = Vec::new();
        let mut i2: usize = 0;
        proof {
            assert(pairs_model(untouched@) =~= Seq::<(Seq<char>, Seq<char>)>::empty());
        }
        while i2 < self.global.len()
            invariant
                i2 <= self.global@.len(),
                self@ == c,
                forall|t: Seq<char>, k: Seq<char>| #![trigger pair_in(pairs_model(untouched@), t, k)]
                    pair_in(pairs_model(untouched@), t, k) <==> (t == GLOBAL_TABLE_NAME@ && exists|
                        j: int,
                    |
                        0 <= j < i2 && (#[trigger] c.global[j]).key == k && lookup(
                            o,
                            GLOBAL_TABLE_NAME@,
                            k,
                        ) is None),
            decreases self.global@.len() - i2,
        {
            let ghost k = c.global[i2 as int].key;
            proof {
                assert(c.global[i2 as int] == self.global@[i2 as int]@);
            }
            let it = &self.global[i2];
            let ghost pre = pairs_model(untouched@);
            if other.config_at(GLOBAL_TABLE_NAME, it.key()).is_none() {
                untouched.push((crate::ty::lit_string(GLOBAL_TABLE_NAME), it.key.clone()));
                proof {
                    assert(pairs_model(untouched@) =~= pre.push((GLOBAL_TABLE_NAME@, k)));
                    lemma_pair_push(pre, (GLOBAL_TABLE_NAME@, k));
                }
            }
            proof {
                assert forall|t: Seq<char>, kk: Seq<char>|
                    #![trigger pair_in(pairs_model(untouched@), t, kk)] true implies {
                    pair_in(pairs_model(untouched@), t, kk) <==> (t == GLOBAL_TABLE_NAME@ && exists|
                        j: int,
                    |
                        0 <= j < i2 + 1 && (#[trigger] c.global[j]).key == kk && lookup(
                            o,
                            GLOBAL_TABLE_NAME@,
                            kk,
                        ) is None)
                } by {
                    if pair_in(pairs_model(untouched@), t, kk) {
                        if pair_in(pre, t, kk) {
                            let j = choose|j: int|
                                0 <= j < i2 && (#[trigger] c.global[j]).key == kk && lookup(
                                    o,
                                    GLOBAL_TABLE_NAME@,
                                    kk,
                                ) is None;
                            assert(c.global[j].key == kk);
                        } else {
                            assert(c.global[i2 as int].key == kk);
                        }
                    }
                    if t == GLOBAL_TABLE_NAME@ && exists|j: int|
                        0 <= j < i2 + 1 && (#[trigger] c.global[j]).key == kk && lookup(
                            o,
                            GLOBAL_TABLE_NAME@,
                            kk,
                        ) is None {
                        let j = choose|j: int|
                            0 <= j < i2 + 1 && (#[trigger] c.global[j]).key == kk && lookup(
                                o,
                                GLOBAL_TABLE_NAME@,
                                kk,
                            ) is None;
                        if j < i2 {
                            assert(pair_in(pre, t, kk));
                        }
                    }
                }
            }
            i2 = i2 + 1;
        }
        proof {
            assert forall|t: Seq<char>, k: Seq<char>|
                #![trigger pair_in(pairs_model(untouched@), t, k)] true implies {
                pair_in(pairs_model(untouched@), t, k) <==> (t == GLOBAL_TABLE_NAME@ && lookup(
                    c,
                    GLOBAL_TABLE_NAME@,
                    k,
                ) is Some && lookup(o, t, k) is None)
            } by {
                lemma_find_item(c.global, k);
            }
        }
        let ghost u_glob = pairs_model(untouched@);
        let mut ti2: usize = 0;
        while ti2 < self.tables.len()
            invariant
                ti2 <= self.tables@.len(),
                self@ == c,
                forall|t: Seq<char>, k: Seq<char>| #![trigger pair_in(pairs_model(untouched@), t, k)]
                    pair_in(pairs_model(untouched@), t, k) <==> (pair_in(u_glob, t, k) || exists|
                        tj: int,
                    |
                        0 <= tj < ti2 && (#[trigger] c.tables[tj]).name == t && find_item(
                            c.tables[tj].items,
                            k,
                        ) is Some && lookup(o, t, k) is None),
            decreases self.tables@.len() - ti2,
        {
            let ghost n = c.tables[ti2 as int].name;
            proof {
                assert(c.tables[ti2 as int] == self.tables@[ti2 as int]@);
            }
            let t = &self.tables[ti2];
            let ghost u_pre = pairs_model(untouched@);
            let mut j2: usize = 0;
            while j2 < t.items.len()
                invariant
                    j2 <= t.items@.len(),
                    self@ == c,
                    ti2 < self.tables@.len(),
                    t == &self.tables@[ti2 as int],
                    n == c.tables[ti2 as int].name,
                    forall|tt: Seq<char>, k: Seq<char>|
                        #![trigger pair_in(pairs_model(untouched@), tt, k)]
                        pair_in(pairs_model(untouched@), tt, k) <==> (pair_in(u_pre, tt, k) || (tt
                            == n && exists|j: int|
                            0 <= j < j2 && (#[trigger] c.tables[ti2 as int].items[j]).key == k
                                && lookup(o, n, k) is None)),
                decreases t.items@.len() - j2,
            {
                let ghost k = c.tables[ti2 as int].items[j2 as int].key;
                proof {
                    assert(c.tables[ti2 as int].items[j2 as int] == t.items@[j2 as int]@);
                }
                let it = &t.items[j2];
                let ghost u_in = pairs_model(untouched@);
                if other.config_at(t.name.as_str(), it.key()).is_none() {
                    untouched.push((t.name.clone(), it.key.clone()));
                    proof {
                        assert(pairs_model(untouched@) =~= u_in.push((n, k)));
                        lemma_pair_push(u_in, (n, k));
                    }
                }
                proof {
                    assert forall|tt: Seq<char>, kk: Seq<char>|
                        #![trigger pair_in(pairs_model(untouched@), tt, kk)] true implies {
                        pair_in(pairs_model(untouched@), tt, kk) <==> (pair_in(u_pre, tt, kk) || (tt
                            == n && exists|j: int|
                            0 <= j < j2 + 1 && (#[trigger] c.tables[ti2 as int].items[j]).key == kk
                                && lookup(o, n, kk) is None))
                    } by {
                        if tt == n && exists|j: int|
                            0 <= j < j2 + 1 && (#[trigger] c.tables[ti2 as int].items[j]).key == kk
                                && lookup(o, n, kk) is None {
                            let j = choose|j: int|
                                0 <= j < j2 + 1 && (#[trigger] c.tables[ti2 as int].items[j]).key
                                    == kk && lookup(o, n, kk) is None;
                            if j < j2 {
                                assert(pair_in(u_in, tt, kk));
                            } else {
                                assert(kk == k);
                            }
                        }
                    }
                }
                j2 = j2 + 1;
            }
            proof {
                assert forall|tt: Seq<char>, kk: Seq<char>|
                    #![trigger pair_in(pairs_model(untouched@), tt, kk)] true implies {
                    pair_in(pairs_model(untouched@), tt, kk) <==> (pair_in(u_glob, tt, kk)
                        || exists|tj: int|
                        0 <= tj < ti2 + 1 && (#[trigger] c.tables[tj]).name == tt && find_item(
                            c.tables[tj].items,
                            kk,
                        ) is Some && lookup(o, tt, kk) is None)
                } by {
                    lemma_find_item(c.tables[ti2 as int].items, kk);
                    if pair_in(pairs_model(untouched@), tt, kk) {
                        if pair_in(u_pre, tt, kk) {
                            if !pair_in(u_glob, tt, kk) {
                                let tj = choose|tj: int|
                                    0 <= tj < ti2 && (#[trigger] c.tables[tj]).name == tt
                                        && find_item(c.tables[tj].items, kk) is Some && lookup(
                                        o,
                                        tt,
                                        kk,
                                    ) is None;
                                assert(c.tables[tj].name == tt);
                            }
                        } else {
                            assert(tt == n && c.tables[ti2 as int].name == tt);
                        }
                    }
                    if !pair_in(u_glob, tt, kk) && exists|tj: int|
                        0 <= tj < ti2 + 1 && (#[trigger] c.tables[tj]).name == tt && find_item(
                            c.tables[tj].items,
                            kk,
                        ) is Some && lookup(o, tt, kk) is None {
                        let tj = choose|tj: int|
                            0 <= tj < ti2 + 1 && (#[trigger] c.tables[tj]).name == tt && find_item(
                                c.tables[tj].items,
                                kk,
                            ) is Some && lookup(o, tt, kk) is None;
                        if tj < ti2 {
                            assert(pair_in(u_pre, tt, kk));
                        } else {
                            assert(tt == n);
                            let x = find_item(c.tables[ti2 as int].items, kk)->Some_0;
                            let j = choose|j: int|
                                0 <= j < c.tables[ti2 as int].items.len()
                                    && #[trigger] c.tables[ti2 as int].items[j] == x && x.key == kk;
                            assert(c.tables[ti2 as int].items[j].key == kk);
                        }
                    }
                }
            }
            ti2 = ti2 + 1;
        }
        proof {
            assert forall|t: Seq<char>, k: Seq<char>|
                #![trigger pair_in(pairs_model(untouched@), t, k)] true implies {
                pair_in(pairs_model(untouched@), t, k) <==> (lookup(c, t, k) is Some && lookup(
                    o,
                    t,
                    k,
                ) is None)
            } by {
                lemma_find_table(c.tables, t);
                if t != GLOBAL_TABLE_NAME@ {
                    if pair_in(pairs_model(untouched@), t, k) && !pair_in(u_glob, t, k) {
                        let tj = choose|tj: int|
                            0 <= tj < c.tables.len() && (#[trigger] c.tables[tj]).name == t
                                && find_item(c.tables[tj].items, k) is Some && lookup(
                                o,
                                t,
                                k,
                            ) is None;
                        assert(find_table(c.tables, t) == Some(c.tables[tj]));
                    }
                    if lookup(c, t, k) is Some {
                        let tm = find_table(c.tables, t)->Some_0;
                        let tj = choose|tj: int|
                            0 <= tj < c.tables.len() && #[trigger] c.tables[tj] == tm && tm.name
                                == t;
                        assert(c.tables[tj].name == t);
                        if lookup(o, t, k) is None {
                            assert(find_item(c.tables[tj].items, k) is Some);
                        }
                    }
                }
            }
        }
        // The extra report: old items under known tables that the
        // specification no longer has.
        let mut e1: usize = 0;
        proof {
            assert(pairs_model(extra@) =~= Seq::<(Seq<char>, Seq<char>)>::empty());
        }
        while e1 < other.global.len()
            invariant
                e1 <= other.global@.len(),
                self@ == c,
                forall|t: Seq<char>, k: Seq<char>| #![trigger pair_in(pairs_model(extra@), t, k)]
                    pair_in(pairs_model(extra@), t, k) <==> (t == GLOBAL_TABLE_NAME@ && exists|
                        j: int,
                    |
                        0 <= j < e1 && (#[trigger] o.global[j]).key == k && lookup(
                            c,
                            GLOBAL_TABLE_NAME@,
                            k,
                        ) is None),
            decreases other.global@.len() - e1,
        {
            let ghost k = o.global[e1 as int].key;
            proof {
                assert(o.global[e1 as int] == other.global@[e1 as int]@);
            }
            let it = &other.global[e1];
            let ghost pre = pairs_model(extra@);
            if self.config_at(GLOBAL_TABLE_NAME, it.key()).is_none() {
                extra.push((crate::ty::lit_string(GLOBAL_TABLE_NAME), it.key.clone()));
                proof {
                    assert(pairs_model(extra@) =~= pre.push((GLOBAL_TABLE_NAME@, k)));
                    lemma_pair_push(pre, (GLOBAL_TABLE_NAME@, k));
                }
            }
            proof {
                assert forall|t: Seq<char>, kk: Seq<char>|
                    #![trigger pair_in(pairs_model(extra@), t, kk)] true implies {
                    pair_in(pairs_model(extra@), t, kk) <==> (t == GLOBAL_TABLE_NAME@ && exists|
                        j: int,
                    |
                        0 <= j < e1 + 1 && (#[trigger] o.global[j]).key == kk && lookup(
                            c,
                            GLOBAL_TABLE_NAME@,
                            kk,
                        ) is None)
                } by {
                    if t == GLOBAL_TABLE_NAME@ && exists|j: int|
                        0 <= j < e1 + 1 && (#[trigger] o.global[j]).key == kk && lookup(
                            c,
                            GLOBAL_TABLE_NAME@,
                            kk,
                        ) is None {
                        let j = choose|j: int|
                            0 <= j < e1 + 1 && (#[trigger] o.global[j]).key == kk && lookup(
                                c,
                                GLOBAL_TABLE_NAME@,
                                kk,
                            ) is None;
                        if j < e1 {
                            assert(pair_in(pre, t, kk));
                        } else {
                            assert(kk == k);
                        }
                    }
                }
            }
            e1 = e1 + 1;
        }
        proof {
            assert forall|t: Seq<char>, k: Seq<char>|
                #![trigger pair_in(pairs_model(extra@), t, k)] true implies {
                pair_in(pairs_model(extra@), t, k) <==> (t == GLOBAL_TABLE_NAME@ && lookup(
                    o,
                    GLOBAL_TABLE_NAME@,
                    k,
                ) is Some && lookup(c, t, k) is None)
            } by {
                lemma_find_item(o.global, k);
            }
        }
        let ghost e_glob = pairs_model(extra@);
        let mut et: usize = 0;
        while et < other.tables.len()
            invariant
                et <= other.tables@.len(),
                self@ == c,
                forall|t: Seq<char>, k: Seq<char>| #![trigger pair_in(pairs_model(extra@), t, k)]
                    pair_in(pairs_model(extra@), t, k) <==> (pair_in(e_glob, t, k) || exists|
                        tj: int,
                    |
                        0 <= tj < et && (#[trigger] o.tables[tj]).name == t && find_item(
                            o.tables[tj].items,
                            k,
                        ) is Some && find_table(c.tables, t) is Some && lookup(c, t, k) is None),
            decreases other.tables@.len() - et,
        {
            let ghost n = o.tables[et as int].name;
            proof {
                assert(o.tables[et as int] == other.tables@[et as int]@);
            }
            let ot = &other.tables[et];
            let ghost e_pre = pairs_model(extra@);
            let in_self = find_table_index(&self.tables, ot.name.as_str()).is_some();
            if in_self {
                let mut ej: usize = 0;
                while ej < ot.items.len()
                    invariant
                        ej <= ot.items@.len(),
                        self@ == c,
                        et < other.tables@.len(),
                        ot == &other.tables@[et as int],
                        n == o.tables[et as int].name,
                        find_table(c.tables, n) is Some,
                        forall|tt: Seq<char>, k: Seq<char>|
                            #![trigger pair_in(pairs_model(extra@), tt, k)]
                            pair_in(pairs_model(extra@), tt, k) <==> (pair_in(e_pre, tt, k) || (tt
                                == n && exists|j: int|
                                0 <= j < ej && (#[trigger] o.tables[et as int].items[j]).key == k
                                    && lookup(c, n, k) is None)),
                    decreases ot.items@.len() - ej,
                {
                    let ghost k = o.tables[et as int].items[ej as int].key;
                    proof {
                        assert(o.tables[et as int].items[ej as int] == ot.items@[ej as int]@);
                    }
                    let it = &ot.items[ej];
                    let ghost e_in = pairs_model(extra@);
                    if self.config_at(ot.name.as_str(), it.key()).is_none() {
                        extra.push((ot.name.clone(), it.key.clone()));
                        proof {
                            assert(pairs_model(extra@) =~= e_in.push((n, k)));
                            lemma_pair_push(e_in, (n, k));
                        }
                    }
                    proof {
                        assert forall|tt: Seq<char>, kk: Seq<char>|
                            #![trigger pair_in(pairs_model(extra@), tt, kk)] true implies {
                            pair_in(pairs_model(extra@), tt, kk) <==> (pair_in(e_pre, tt, kk) || (tt
                                == n && exists|j: int|
                                0 <= j < ej + 1 && (#[trigger] o.tables[et as int].items[j]).key
                                    == kk && lookup(c, n, kk) is None))
                        } by {
                            if tt == n && exists|j: int|
                                0 <= j < ej + 1 && (#[trigger] o.tables[et as int].items[j]).key
                                    == kk && lookup(c, n, kk) is None {
                                let j = choose|j: int|
                                    0 <= j < ej + 1
                                        && (#[trigger] o.tables[et as int].items[j]).key == kk
                                        && lookup(c, n, kk) is None;
                                if j < ej {
                                    assert(pair_in(e_in, tt, kk));
                                } else {
                                    assert(kk == k);
                                }
                            }
                        }
                    }
                    ej = ej + 1;
                }
            }
            proof {
                assert forall|tt: Seq<char>, kk: Seq<char>|
                    #![trigger pair_in(pairs_model(extra@), tt, kk)] true implies {
                    pair_in(pairs_model(extra@), tt, kk) <==> (pair_in(e_glob, tt, kk) || exists|
                        tj: int,
                    |
                        0 <= tj < et + 1 && (#[trigger] o.tables[tj]).name == tt && find_item(
                            o.tables[tj].items,
                            kk,
                        ) is Some && find_table(c.tables, tt) is Some && lookup(c, tt, kk) is None)
                } by {
                    lemma_find_item(o.tables[et as int].items, kk);
                    if pair_in(pairs_model(extra@), tt, kk) {
                        if pair_in(e_pre, tt, kk) {
                            if !pair_in(e_glob, tt, kk) {
                                let tj = choose|tj: int|
                                    0 <= tj < et && (#[trigger] o.tables[tj]).name == tt
                                        && find_item(o.tables[tj].items, kk) is Some && find_table(
                                        c.tables,
                                        tt,
                                    ) is Some && lookup(c, tt, kk) is None;
                                assert(o.tables[tj].name == tt);
                            }
                        } else {
                            assert(tt == n && o.tables[et as int].name == tt);
                        }
                    }
                    if !pair_in(e_glob, tt, kk) && exists|tj: int|
                        0 <= tj < et + 1 && (#[trigger] o.tables[tj]).name == tt && find_item(
                            o.tables[tj].items,
                            kk,
                        ) is Some && find_table(c.tables, tt) is Some && lookup(c, tt, kk) is None {
                        let tj = choose|tj: int|
                            0 <= tj < et + 1 && (#[trigger] o.tables[tj]).name == tt && find_item(
                                o.tables[tj].items,
                                kk,
                            ) is Some && find_table(c.tables, tt) is Some && lookup(
                                c,
                                tt,
                                kk,
                            ) is None;
                        if tj < et {
                            assert(pair_in(e_pre, tt, kk));
                        } else {
                            assert(tt == n);
                            assert(find_table(c.tables, n) is Some);
                            let x = find_item(o.tables[et as int].items, kk)->Some_0;
                            let j = choose|j: int|
                                0 <= j < o.tables[et as int].items.len()
                                    && #[trigger] o.tables[et as int].items[j] == x && x.key == kk;
                            assert(o.tables[et as int].items[j].key == kk);
                        }
                    }
                }
            }
            et = et + 1;
        }
        proof {
            assert forall|t: Seq<char>, k: Seq<char>| #![trigger pair_in(pairs_model(extra@), t, k)]
                true implies {
                pair_in(pairs_model(extra@), t, k) <==> ((t == GLOBAL_TABLE_NAME@ || find_table(
                    c.tables,
                    t,
                ) is Some) && lookup(o, t, k) is Some && lookup(c, t, k) is None)
            } by {
                lemma_find_table(o.tables, t);
                if t != GLOBAL_TABLE_NAME@ {
                    if pair_in(pairs_model(extra@), t, k) && !pair_in(e_glob, t, k) {
                        let tj = choose|tj: int|
                            0 <= tj < o.tables.len() && (#[trigger] o.tables[tj]).name == t
                                && find_item(o.tables[tj].items, k) is Some && find_table(
                                c.tables,
                                t,
                            ) is Some && lookup(c, t, k) is None;
                        assert(find_table(o.tables, t) == Some(o.tables[tj]));
                    }
                    if find_table(c.tables, t) is Some && lookup(o, t, k) is Some && lookup(
                        c,
                        t,
                        k,
                    ) is None {
                        let tm = find_table(o.tables, t)->Some_0;
                        let tj = choose|tj: int|
                            0 <= tj < o.tables.len() && #[trigger] o.tables[tj] == tm && tm.name
                                == t;
                        assert(o.tables[tj].name == t);
                        assert(find_item(o.tables[tj].items, k) is Some);
                    }
                }
            }
        }
        // Third pass: adopt the old values.
        let mut new_global: Vec<ConfigItem> = Vec::new();
        let mut a1: usize = 0;
        while a1 < self.global.len()
            invariant
                a1 <= self.global@.len(),
                self@ == c,
                new_global@.len() == a1,
                forall|j: int|
                    0 <= j < a1 ==> (#[trigger] new_global@[j])@ == item_updated(
                        c.global[j],
                        lookup(o, GLOBAL_TABLE_NAME@, c.global[j].key),
                    ) && cv_wf(new_global@[j]@.value),
            decreases self.global@.len() - a1,
        {
            let ghost k = c.global[a1 as int].key;
            proof {
                assert(c.global[a1 as int] == self.global@[a1 as int]@);
                lemma_lookup_wf(o, GLOBAL_TABLE_NAME@, k);
            }
            let it = &self.global[a1];
            let oth = other.config_at(GLOBAL_TABLE_NAME, it.key());
            let ni = apply_item(it, oth);
            new_global.push(ni);
            a1 = a1 + 1;
        }
        let mut new_tables: Vec<NamedTable> = Vec::new();
        let mut a2: usize = 0;
        while a2 < self.tables.len()
            invariant
                a2 <= self.tables@.len(),
                self@ == c,
                new_tables@.len() == a2,
                forall|tj: int| #![trigger new_tables@[tj]]
                    0 <= tj < a2 ==> {
                        let nt = new_tables@[tj]@;
                        let ct = c.tables[tj];
                        nt.name == ct.name && nt.comments == ct.comments && nt.items.len()
                            == ct.items.len() && (forall|j: int| #![trigger nt.items[j]]
                            0 <= j < ct.items.len() ==> nt.items[j] == item_updated(
                                ct.items[j],
                                lookup(o, ct.name, ct.items[j].key),
                            ) && cv_wf(nt.items[j].value))
                    },
            decreases self.tables@.len() - a2,
        {
            let ghost n = c.tables[a2 as int].name;
            proof {
                assert(c.tables[a2 as int] == self.tables@[a2 as int]@);
            }
            let t = &self.tables[a2];
            let mut new_items: Vec<ConfigItem> = Vec::new();
            let mut aj: usize = 0;
            while aj < t.items.len()
                invariant
                    aj <= t.items@.len(),
                    self@ == c,
                    a2 < self.tables@.len(),
                    t == &self.tables@[a2 as int],
                    n == c.tables[a2 as int].name,
                    new_items@.len() == aj,
                    forall|j: int|
                        0 <= j < aj ==> (#[trigger] new_items@[j])@ == item_updated(
                            c.tables[a2 as int].items[j],
                            lookup(o, n, c.tables[a2 as int].items[j].key),
                        ) && cv_wf(new_items@[j]@.value),
                decreases t.items@.len() - aj,
            {
                let ghost k = c.tables[a2 as int].items[aj as int].key;
                proof {
                    assert(c.tables[a2 as int].items[aj as int] == t.items@[aj as int]@);
                    lemma_lookup_wf(o, n, k);
                }
                let it = &t.items[aj];
                let oth = other.config_at(t.name.as_str(), it.key());
                let ni = apply_item(it, oth);
                new_items.push(ni);
                aj = aj + 1;
            }
            let nt = NamedTable {
                name: t.name.clone(),
                comments: t.comments.clone(),
                items: new_items,
            };
            new_tables.push(nt);
            a2 = a2 + 1;
        }
        self.global = new_global;
        self.tables = new_tables;
        proof {
            let f = self@;
            assert(update_applied(c, o, f)) by {
                assert(f.global.len() == c.global.len());
                assert forall|i: int| #![trigger f.global[i]] 0 <= i < c.global.len() implies f
                    .global[i] == item_updated(
                    c.global[i],
                    lookup(o, GLOBAL_TABLE_NAME@, c.global[i].key),
                ) by {}
                assert forall|tj: int| #![trigger f.tables[tj]] 0 <= tj < c.tables.len() implies {
                    f.tables[tj].name == c.tables[tj].name && f.tables[tj].comments
                        == c.tables[tj].comments && f.tables[tj].items.len()
                        == c.tables[tj].items.len() && (forall|j: int|
                        #![trigger f.tables[tj].items[j]]
                        0 <= j < c.tables[tj].items.len() ==> f.tables[tj].items[j] == item_updated(
                            c.tables[tj].items[j],
                            lookup(o, c.tables[tj].name, c.tables[tj].items[j].key),
                        ))
                } by {}
            }
            assert(cfg_wf(f)) by {
                assert forall|i: int, j: int|
                    0 <= i < j < f.global.len() implies seq_lt(
                    #[trigger] f.global[i].key,
                    #[trigger] f.global[j].key,
                ) by {
                    assert(f.global[i].key == c.global[i].key);
                    assert(f.global[j].key == c.global[j].key);
                }
                assert forall|i: int|
                    0 <= i < f.global.len() implies cv_wf((#[trigger] f.global[i]).value) by {}
                assert forall|i: int, j: int|
                    0 <= i < j < f.tables.len() implies seq_lt(
                    #[trigger] f.tables[i].name,
                    #[trigger] f.tables[j].name,
                ) by {
                    assert(f.tables[i].name == c.tables[i].name);
                    assert(f.tables[j].name == c.tables[j].name);
                }
                assert forall|ti3: int|
                    0 <= ti3 < f.tables.len() implies items_wf(
                    (#[trigger] f.tables[ti3]).items,
                ) by {
                    assert forall|i: int, j: int|
                        0 <= i < j < f.tables[ti3].items.len() implies seq_lt(
                        #[trigger] f.tables[ti3].items[i].key,
                        #[trigger] f.tables[ti3].items[j].key,
                    ) by {
                        assert(f.tables[ti3].items[i].key == c.tables[ti3].items[i].key);
                        assert(f.tables[ti3].items[j].key == c.tables[ti3].items[j].key);
                    }
                    assert forall|i: int|
                        0 <= i < f.tables[ti3].items.len() implies cv_wf(
                        (#[trigger] f.tables[ti3].items[i]).value,
                    ) by {}
                }
                assert forall|i: int|
                    0 <= i < f.tables.len() implies (#[trigger] f.tables[i]).name
                        != GLOBAL_TABLE_NAME@ by {
                    assert(f.tables[i].name == c.tables[i].name);
                }
            }
        }
        Ok((untouched, extra))
    }
}


/// Replacing the item at one position by one of the same key keeps the
/// order and changes `find_item` only at that key.
pub proof fn lemma_item_replace(items: Seq<ItemModel>, idx: int, it: ItemModel)
    requires
        items_sorted(items),
        0 <= idx < items.len(),
        it.key == items[idx].key,
    ensures
        items_sorted(items.update(idx, it)),
        forall|k: Seq<char>| #![trigger find_item(items.update(idx, it), k)]
            find_item(items.update(idx, it), k) == if k == it.key {
                Some(it)
            } else {
                find_item(items, k)
            },
{
    let out = items.update(idx, it);
    assert forall|i: int, j: int|
        0 <= i < j < out.len() implies seq_lt(#[trigger] out[i].key, #[trigger] out[j].key) by {
        assert(out[i] == if i == idx { it } else { items[i] });
        assert(out[j] == if j == idx { it } else { items[j] });
    }
    assert forall|k: Seq<char>| #![trigger find_item(out, k)] find_item(out, k) == (if k
        == it.key {
        Some(it)
    } else {
        find_item(items, k)
    }) by {
        lemma_find_item(out, k);
        lemma_find_item(items, k);
        if k == it.key {
            assert(out[idx] == it);
            assert(find_item(out, k) == Some(out[idx]));
        } else {
            match find_item(items, k) {
                Some(x) => {
                    let i = choose|i: int|
                        0 <= i < items.len() && #[trigger] items[i] == x && x.key == k;
                    assert(out[i] == items[i]);
                    assert(find_item(out, k) == Some(out[i]));
                },
                None => {
                    assert forall|i: int|
                        0 <= i < out.len() implies (#[trigger] out[i]).key != k by {
                        if i != idx {
                            assert(out[i] == items[i]);
                        }
                    }
                },
            }
        }
    }
}

impl Config {
    /// A point-write: replaces the value of the item under the given table
    /// name and key with a new value, under the same type-matching
    /// discipline as reconciliation.  Fails with `NotFound` when no such
    /// item exists, and with `ValueTypeMismatch` when the item's declared
    /// type refuses the new value; either way nothing changes.
    pub fn write(&mut self, table: &str, key: &str, value: ConfigValue) -> (r: ConfigResult<()>)
        requires
            cfg_wf(old(self)@),
            cv_wf(value@),
        ensures
            cfg_wf(final(self)@),
            match r {
                Ok(_) => {
                    &&& (lookup(old(self)@, table@, key@) matches Some(ci) && (
                    ci.value.ty matches Some(t) ==> matches_spec(value@.value, t)))
                    &&& forall|t2: Seq<char>, k2: Seq<char>|
                        #![trigger lookup(final(self)@, t2, k2)]
                        lookup(final(self)@, t2, k2) == if t2 == table@ && k2 == key@ {
                            match lookup(old(self)@, table@, key@) {
                                Some(ci) => Some(
                                    ItemModel {
                                        key: ci.key,
                                        comments: ci.comments,
                                        value: CfgValModel { value: value@.value, ty: ci.value.ty },
                                    },
                                ),
                                None => None,
                            }
                        } else {
                            lookup(old(self)@, t2, k2)
                        }
                },
                Err(e) => {
                    &&& final(self)@ == old(self)@
                    &&& (e is NotFound <==> lookup(old(self)@, table@, key@) is None)
                    &&& (e matches ConfigErr::ValueTypeMismatch(k2, ex) ==> (k2@ == key@ && (lookup(
                        old(self)@,
                        table@,
                        key@,
                    ) matches Some(ci) && (ci.value.ty matches Some(t) && !matches_spec(
                        value@.value,
                        t,
                    ) && ex@ == crate::ty::ty_text(t)))))
                    &&& (e is NotFound || e is ValueTypeMismatch)
                },
            },
    {
        let ghost c = old(self)@;
        if str_eq(table, GLOBAL_TABLE_NAME) {
            match find_index(&self.global, key) {
                None => Err(ConfigErr::NotFound),
                Some(i) => {
                    let mut item = self.global[i].clone();
                    let ghost old_item = c.global[i as int];
                    proof {
                        assert(old_item == self.global@[i as int]@);
                    }
                    match item.value.update(value) {
                        Err(e) => {
                            proof {
                                assert(self@ == c);
                            }
                            let ex = match e {
                                ConfigErr::ValueTypeMismatch(_, ex) => ex,
                                _ => {
                                    proof {
                                        assert(false);
                                    }
                                    String::new()
                                },
                            };
                            Err(ConfigErr::ValueTypeMismatch(crate::ty::lit_string(key), ex))
                        },
                        Ok(_) => {
                            proof {
                                lemma_item_replace(c.global, i as int, item@);
                            }
                            let _old = self.global.remove(i);
                            self.global.insert(i, item);
                            proof {
                                assert(imodel(self.global@) =~= c.global.update(i as int, item@));
                                assert forall|j: int|
                                    0 <= j < imodel(self.global@).len() implies cv_wf(
                                    (#[trigger] imodel(self.global@)[j]).value,
                                ) by {
                                    if j != i {
                                        assert(imodel(self.global@)[j] == c.global[j]);
                                    }
                                }
                                assert forall|t2: Seq<char>, k2: Seq<char>|
                                    #![trigger lookup(self@, t2, k2)] true implies lookup(
                                    self@,
                                    t2,
                                    k2,
                                ) == (if t2 == table@ && k2 == key@ {
                                    match lookup(c, table@, key@) {
                                        Some(ci) => Some(
                                            ItemModel {
                                                key: ci.key,
                                                comments: ci.comments,
                                                value: CfgValModel {
                                                    value: value@.value,
                                                    ty: ci.value.ty,
                                                },
                                            },
                                        ),
                                        None => None,
                                    }
                                } else {
                                    lookup(c, t2, k2)
                                }) by {}
                            }
                            Ok(())
                        },
                    }
                },
            }
        } else {
            match find_table_index(&self.tables, table) {
                None => Err(ConfigErr::NotFound),
                Some(ti) => {
                    match find_index(&self.tables[ti].items, key) {
                        None => Err(ConfigErr::NotFound),
                        Some(i) => {
                            let ghost tbl = c.tables[ti as int];
                            let mut item = self.tables[ti].items[i].clone();
                            let ghost old_item = tbl.items[i as int];
                            proof {
                                assert(tbl == self.tables@[ti as int]@);
                                assert(old_item == self.tables@[ti as int].items@[i as int]@);
                            }
                            match item.value.update(value) {
                                Err(e) => {
                                    let ex = match e {
                                        ConfigErr::ValueTypeMismatch(_, ex) => ex,
                                        _ => {
                                            proof {
                                                assert(false);
                                            }
                                            String::new()
                                        },
                                    };
                                    Err(ConfigErr::ValueTypeMismatch(
                                        crate::ty::lit_string(key),
                                        ex,
                                    ))
                                },
                                Ok(_) => {
                                    proof {
                                        lemma_item_replace(tbl.items, i as int, item@);
                                    }
                                    let mut t = self.tables.remove(ti);
                                    let _old = t.items.remove(i);
                                    t.items.insert(i, item);
                                    let ghost ntv = t@;
                                    proof {
                                        assert(ntv.items =~= tbl.items.update(i as int, item@));
                                        lemma_table_update(c.tables, ti as int, ntv);
                                        assert(tmodel(self.tables@) =~= c.tables.remove(ti as int));
                                    }
                                    self.tables.insert(ti, t);
                                    proof {
                                        assert(tmodel(self.tables@) =~= c.tables.update(
                                            ti as int,
                                            ntv,
                                        ));
                                        assert forall|j: int|
                                            0 <= j < ntv.items.len() implies cv_wf(
                                            (#[trigger] ntv.items[j]).value,
                                        ) by {
                                            if j != i {
                                                assert(ntv.items[j] == tbl.items[j]);
                                            }
                                        }
                                        assert forall|j: int|
                                            0 <= j < self@.tables.len() implies items_wf(
                                            (#[trigger] self@.tables[j]).items,
                                        ) && self@.tables[j].name != GLOBAL_TABLE_NAME@ by {
                                            if j != ti {
                                                assert(self@.tables[j] == c.tables[j]);
                                            }
                                        }
                                        assert forall|t2: Seq<char>, k2: Seq<char>|
                                            #![trigger lookup(self@, t2, k2)] true implies lookup(
                                            self@,
                                            t2,
                                            k2,
                                        ) == (if t2 == table@ && k2 == key@ {
                                            match lookup(c, table@, key@) {
                                                Some(ci) => Some(
                                                    ItemModel {
                                                        key: ci.key,
                                                        comments: ci.comments,
                                                        value: CfgValModel {
                                                            value: value@.value,
                                                            ty: ci.value.ty,
                                                        },
                                                    },
                                                ),
                                                None => None,
                                            }
                                        } else {
                                            lookup(c, t2, k2)
                                        }) by {
                                            if t2 == table@ {
                                                assert(find_table(self@.tables, t2) == Some(ntv));
                                            }
                                        }
                                    }
                                    Ok(())
                                },
                            }
                        },
                    }
                },
            }
        }
    }
}

/// Splits a `table.key=value` command into its three parts; a command
/// without a dot addresses the global table.
pub fn parse_config_write_cmd(cmd: &str) -> (r: Result<(String, String, String), String>)
    ensures
        match r {
            Ok(parts) => {
                let eq = choose|i: int|
                    0 <= i < cmd@.len() && cmd@[i] == '=' && (forall|j: int|
                        0 <= j < i ==> cmd@[j] != '=');
                &&& exists|i: int|
                    0 <= i < cmd@.len() && #[trigger] cmd@[i] == '=' && (forall|j: int|
                        0 <= j < i ==> cmd@[j] != '=')
                &&& parts.2@ == cmd@.skip(eq + 1)
                &&& {
                    let item = cmd@.take(eq);
                    if exists|i: int|
                        0 <= i < item.len() && #[trigger] item[i] == '.' && (forall|j: int|
                            0 <= j < i ==> item[j] != '.') {
                        let dot = choose|i: int|
                            0 <= i < item.len() && item[i] == '.' && (forall|j: int|
                                0 <= j < i ==> item[j] != '.');
                        parts.0@ == item.take(dot) && parts.1@ == item.skip(dot + 1)
                    } else {
                        parts.0@ == GLOBAL_TABLE_NAME@ && parts.1@ == item
                    }
                }
            },
            Err(_) => forall|i: int| 0 <= i < cmd@.len() ==> cmd@[i] != '=',
        },
{
    let chars = crate::text::str_to_chars(cmd);
    let n = chars.len();
    let mut eq: usize = 0;
    let mut found_eq = false;
    while eq < n && !found_eq
        invariant
            eq <= n,
            n == cmd@.len(),
            chars@ == cmd@,
            !found_eq ==> forall|j: int| 0 <= j < eq ==> cmd@[j] != '=',
            found_eq ==> eq < n && cmd@[eq as int] == '=' && (forall|j: int|
                0 <= j < eq ==> cmd@[j] != '='),
        decreases n - eq + (if found_eq { 0int } else { 1int }),
    {
        if chars[eq] == '=' {
            found_eq = true;
        } else {
            eq = eq + 1;
        }
    }
    if !found_eq {
        return Err(crate::ty::lit_string("expected a `table.key=value` command"));
    }
    let value = chars_range_string(&chars, eq + 1, n);
    proof {
        assert(value@ =~= cmd@.skip(eq + 1));
    }
    let mut dot: usize = 0;
    let mut found_dot = false;
    while dot < eq && !found_dot
        invariant
            dot <= eq <= n,
            n == cmd@.len(),
            chars@ == cmd@,
            !found_dot ==> forall|j: int| 0 <= j < dot ==> cmd@.take(eq as int)[j] != '.',
            found_dot ==> dot < eq && cmd@.take(eq as int)[dot as int] == '.' && (forall|j: int|
                0 <= j < dot ==> cmd@.take(eq as int)[j] != '.'),
        decreases eq - dot + (if found_dot { 0int } else { 1int }),
    {
        if chars[dot] == '.' {
            found_dot = true;
        } else {
            dot = dot + 1;
        }
    }
    let ghost item = cmd@.take(eq as int);
    if found_dot {
        let table = chars_range_string(&chars, 0, dot);
        let key = chars_range_string(&chars, dot + 1, eq);
        proof {
            assert(table@ =~= item.take(dot as int));
            assert(key@ =~= item.skip(dot + 1));
            let w = choose|i: int|
                0 <= i < item.len() && item[i] == '.' && (forall|j: int|
                    0 <= j < i ==> item[j] != '.');
            assert(item[dot as int] == '.');
            assert(w == dot as int) by {
                if w < dot {
                    assert(item[w] != '.');
                } else if w > dot {
                    assert(item[dot as int] != '.');
                }
            }
        }
        Ok((table, key, value))
    } else {
        let key = chars_range_string(&chars, 0, eq);
        proof {
            assert(key@ =~= item);
            assert forall|i: int| 0 <= i < item.len() implies item[i] != '.' by {
                assert(cmd@.take(eq as int)[i] != '.');
            }
        }
        Ok((crate::ty::lit_string(GLOBAL_TABLE_NAME), key, value))
    }
}

/// A fresh string holding a contiguous region of a character vector.
fn chars_range_string(chars: &Vec<char>, from: usize, to: usize) -> (r: String)
    requires
        from <= to <= chars@.len(),
    ensures
        r@ == chars@.subrange(from as int, to as int),
{
    let sub = crate::ty::subvec(chars, from, to);
    crate::text::chars_to_string(&sub)
}

/// Merge is commutative on disjoint configurations: merging either way
/// yields the same items under every (table, key) pair and the same set of
/// named tables; only the documentation of tables taken over from the other
/// side may differ.
pub proof fn lemma_merge_commutes(a: ConfigModel, b: ConfigModel, m1: ConfigModel, m2: ConfigModel)
    requires
        config_disjoint(a, b),
        merge_lookups(a, b, m1),
        merge_lookups(b, a, m2),
        merge_tables_shape(a, b, m1),
        merge_tables_shape(b, a, m2),
    ensures
        forall|t: Seq<char>, k: Seq<char>| #![trigger lookup(m1, t, k), lookup(m2, t, k)]
            lookup(m1, t, k) == lookup(m2, t, k),
        forall|n: Seq<char>| #![trigger find_table(m1.tables, n), find_table(m2.tables, n)]
            find_table(m1.tables, n) is Some <==> find_table(m2.tables, n) is Some,
{
    assert forall|t: Seq<char>, k: Seq<char>| #![trigger lookup(m1, t, k), lookup(m2, t, k)] true
        implies lookup(m1, t, k) == lookup(m2, t, k) by {
        assert(!pair_clash(a, b, t, k));
        assert(lookup(m1, t, k) == match lookup(a, t, k) {
            Some(x) => Some(x),
            None => lookup(b, t, k),
        });
        assert(lookup(m2, t, k) == match lookup(b, t, k) {
            Some(x) => Some(x),
            None => lookup(a, t, k),
        });
    }
    assert forall|n: Seq<char>|
        #![trigger find_table(m1.tables, n), find_table(m2.tables, n)] true implies (find_table(
        m1.tables,
        n,
    ) is Some <==> find_table(m2.tables, n) is Some) by {
        assert(match find_table(m1.tables, n) {
            Some(tm) => tm.name == n && match (find_table(a.tables, n), find_table(b.tables, n)) {
                (Some(ta), _) => tm.comments == ta.comments,
                (None, Some(tb)) => tm.comments == tb.comments,
                (None, None) => false,
            },
            None => find_table(a.tables, n) is None && find_table(b.tables, n) is None,
        });
        assert(match find_table(m2.tables, n) {
            Some(tm) => tm.name == n && match (find_table(b.tables, n), find_table(a.tables, n)) {
                (Some(tb), _) => tm.comments == tb.comments,
                (None, Some(ta)) => tm.comments == ta.comments,
                (None, None) => false,
            },
            None => find_table(b.tables, n) is None && find_table(a.tables, n) is None,
        });
    }
}

/// Merge rejects duplicates: two configurations that both define one global
/// key are not disjoint, in either order, so merging them fails either way
/// and leaves the receiver unchanged.
pub proof fn lemma_merge_duplicate(a: ConfigModel, b: ConfigModel, x: Seq<char>)
    requires
        find_item(a.global, x) is Some,
        find_item(b.global, x) is Some,
    ensures
        !config_disjoint(a, b),
        !config_disjoint(b, a),
{
    assert(pair_clash(a, b, GLOBAL_TABLE_NAME@, x));
    assert(pair_clash(b, a, GLOBAL_TABLE_NAME@, x));
}


impl Config {
    /// Inserts an item into the global table; fails with `DuplicateKey` when
    /// the key is already present.
    pub fn insert_global(&mut self, item: ConfigItem) -> (r: ConfigResult<()>)
        requires
            cfg_wf(old(self)@),
            cv_wf(item@.value),
        ensures
            cfg_wf(final(self)@),
            match r {
                Ok(_) => {
                    &&& find_item(old(self)@.global, item@.key) is None
                    &&& final(self)@.tables == old(self)@.tables
                    &&& forall|k: Seq<char>| #![trigger find_item(final(self)@.global, k)]
                        find_item(final(self)@.global, k) == if k == item@.key {
                            Some(item@)
                        } else {
                            find_item(old(self)@.global, k)
                        }
                },
                Err(e) => {
                    &&& final(self)@ == old(self)@
                    &&& (e matches ConfigErr::DuplicateKey(k) && k@ == item@.key)
                    &&& find_item(old(self)@.global, item@.key) is Some
                },
            },
    {
        match find_index(&self.global, item.key.as_str()) {
            Some(_) => Err(ConfigErr::DuplicateKey(item.key.clone())),
            None => {
                insert_sorted(&mut self.global, item);
                Ok(())
            },
        }
    }

    /// Inserts an item into the named table; fails with `NotFound` when the
    /// table does not exist, and with `DuplicateKey` when the key is already
    /// present in it.
    pub fn insert_in_table(&mut self, name: &str, item: ConfigItem) -> (r: ConfigResult<()>)
        requires
            cfg_wf(old(self)@),
            cv_wf(item@.value),
        ensures
            cfg_wf(final(self)@),
            match r {
                Ok(_) => {
                    &&& final(self)@.global == old(self)@.global
                    &&& find_table(old(self)@.tables, name@) matches Some(told) && find_item(
                        told.items,
                        item@.key,
                    ) is None
                    &&& forall|n: Seq<char>| #![trigger find_table(final(self)@.tables, n)]
                        find_table(final(self)@.tables, n) == if n == name@ {
                            Some(find_table(final(self)@.tables, name@)->Some_0)
                        } else {
                            find_table(old(self)@.tables, n)
                        }
                    &&& find_table(final(self)@.tables, name@) matches Some(tnew) && (find_table(
                        old(self)@.tables,
                        name@,
                    ) matches Some(told) && tnew.name == told.name && tnew.comments == told.comments
                        && (forall|k: Seq<char>| #![trigger find_item(tnew.items, k)]
                        find_item(tnew.items, k) == if k == item@.key {
                            Some(item@)
                        } else {
                            find_item(told.items, k)
                        }))
                },
                Err(e) => {
                    &&& final(self)@ == old(self)@
                    &&& (e is NotFound <==> find_table(old(self)@.tables, name@) is None)
                    &&& (e matches ConfigErr::DuplicateKey(k) ==> (k@ == item@.key && (find_table(
                        old(self)@.tables,
                        name@,
                    ) matches Some(told) && find_item(told.items, item@.key) is Some)))
                    &&& (e is NotFound || e is DuplicateKey)
                },
            },
    {
        let ghost c = old(self)@;
        match find_table_index(&self.tables, name) {
            None => Err(ConfigErr::NotFound),
            Some(ti) => {
                let ghost tbl = c.tables[ti as int];
                proof {
                    assert(tbl == self.tables@[ti as int]@);
                }
                match find_index(&self.tables[ti].items, item.key.as_str()) {
                    Some(_) => Err(ConfigErr::DuplicateKey(item.key.clone())),
                    None => {
                        let ghost iv = item@;
                        let mut t = self.tables.remove(ti);
                        insert_sorted(&mut t.items, item);
                        let ghost ntv = t@;
                        proof {
                            lemma_table_update(c.tables, ti as int, ntv);
                            assert(tmodel(self.tables@) =~= c.tables.remove(ti as int));
                        }
                        self.tables.insert(ti, t);
                        proof {
                            assert(tmodel(self.tables@) =~= c.tables.update(ti as int, ntv));
                            assert forall|j: int|
                                0 <= j < self@.tables.len() implies items_wf(
                                (#[trigger] self@.tables[j]).items,
                            ) && self@.tables[j].name != GLOBAL_TABLE_NAME@ by {
                                if j != ti {
                                    assert(self@.tables[j] == c.tables[j]);
                                }
                            }
                        }
                        Ok(())
                    },
                }
            },
        }
    }
}

} // verus!
