//! What the library takes from `toml_edit`: the array of tables that holds
//! the persisted list, and the tables in it.
//!
//! Nothing here is proved. Each item states what the `toml_edit` function of
//! the same name does to the contents of its receiver.

use toml_edit::{ArrayOfTables, Table};
use vstd::prelude::*;

verus! {

/// `toml_edit::ArrayOfTables`, opaque to the verifier.
#[verifier::external_type_specification]
#[verifier::external_body]
pub struct ExArrayOfTables(toml_edit::ArrayOfTables);

/// `toml_edit::Table`, opaque to the verifier.
#[verifier::external_type_specification]
#[verifier::external_body]
pub struct ExTable(toml_edit::Table);

/// The strings of a table: each key under which the table holds a string,
/// with that string.
pub type Strings = Map<Seq<char>, Seq<char>>;

/// The strings that a table holds. Entries of any other kind are left out.
pub uninterp spec fn table_strings(table: Table) -> Strings;

/// What an array of tables holds, item by item in the order of the array:
/// the strings of the table stored there, or `None` where the item stored
/// there is not a table.
pub uninterp spec fn array_tables(array: ArrayOfTables) -> Seq<Option<Strings>>;

/// `Table::new` makes a table without entries.
pub assume_specification[ Table::new ]() -> (table: Table)
    ensures
        table_strings(table) =~= Map::empty(),
;

/// Assignment of `toml_edit::value(text)` to `table[key]`: the table then
/// holds the string `text` under `key`, whatever it held there before, and
/// its other entries are as they were.
#[verifier::external_body]
pub(crate) fn set_string(table: &mut Table, key: &str, text: &str)
    ensures
        table_strings(*final(table)) == table_strings(*old(table)).insert(key@, text@),
{
    table[key] = toml_edit::value(text);
}

/// `Table::get`, with `Item::as_str` applied to what it finds: the string
/// that the table holds under `key`, if it holds one there.
#[verifier::external_body]
pub(crate) fn get_string<'a>(table: &'a Table, key: &str) -> (text: Option<&'a str>)
    ensures
        text is Some <==> table_strings(*table).contains_key(key@),
        text matches Some(found) ==> found@ == table_strings(*table)[key@],
{
    table.get(key).and_then(toml_edit::Item::as_str)
}

/// `ArrayOfTables::new` makes an array without items.
pub assume_specification[ ArrayOfTables::new ]() -> (array: ArrayOfTables)
    ensures
        array_tables(array) =~= Seq::empty(),
;

/// `ArrayOfTables::len` is the number of items stored.
pub assume_specification[ ArrayOfTables::len ](array: &ArrayOfTables) -> (len: usize)
    ensures
        len == array_tables(*array).len(),
;

/// `ArrayOfTables::get` hands out the item at `index` if there is one and it
/// is a table.
pub assume_specification<'a>[ ArrayOfTables::get ](array: &'a ArrayOfTables, index: usize) -> (found: Option<&'a Table>)
    ensures
        found is Some <==> (index < array_tables(*array).len() && array_tables(*array)[index as int] is Some),
        found matches Some(table) ==> array_tables(*array)[index as int] == Some(table_strings(*table)),
;

/// `ArrayOfTables::push` appends the table.
pub assume_specification[ ArrayOfTables::push ](array: &mut ArrayOfTables, table: Table)
    ensures
        array_tables(*final(array)) == array_tables(*old(array)).push(Some(table_strings(table))),
;

/// `ArrayOfTables::remove` takes out the item at `index` and moves the later
/// ones down by one. It panics where `index` is out of range.
pub assume_specification[ ArrayOfTables::remove ](array: &mut ArrayOfTables, index: usize)
    requires
        index < array_tables(*old(array)).len(),
    ensures
        array_tables(*final(array)) == array_tables(*old(array)).remove(index as int),
;

/// `ArrayOfTables::clear` takes out every item.
pub assume_specification[ ArrayOfTables::clear ](array: &mut ArrayOfTables)
    ensures
        array_tables(*final(array)) =~= Seq::empty(),
;

} // verus!
