//! The list and the array of tables that mirrors it, held together.
//!
//! A [`RecentsHolder`] owns both. It hands out neither for change, so the
//! two can only be changed together, through a
//! [`RecentsWriter`](crate::write::RecentsWriter). That the two are in step
//! is an invariant of the type: no function asks for it, and every function
//! that makes or changes a holder is proved to keep it.

use crate::document::{array_tables, get_string, Strings};
use crate::entry::{keys_of, same_url, Recent, Recents};
use toml_edit::ArrayOfTables;
use vstd::prelude::*;

verus! {

/// The name of the field under which a table of the document holds the URL
/// of its entry.
pub open spec fn url_field() -> Seq<char> {
    "url"@
}

/// The strings of the table that the document holds for the entry with the
/// key `key`: the key under `url`, and nothing else.
pub open spec fn url_table(key: Seq<char>) -> Strings {
    Map::empty().insert(url_field(), key)
}

/// The key that an item of the document carries: the string under `url`, if
/// the item is a table that holds one.
pub open spec fn url_of(item: Option<Strings>) -> Option<Seq<char>> {
    match item {
        Some(strings) => if strings.contains_key(url_field()) {
            Some(strings[url_field()])
        } else {
            None
        },
        None => None,
    }
}

/// Whether the items of the document mirror the keys of the list: there are
/// as many of the one as of the other, and each item carries the key of the
/// entry at its place.
pub open spec fn mirrors(tables: Seq<Option<Strings>>, keys: Seq<Seq<char>>) -> bool {
    &&& tables.len() == keys.len()
    &&& forall|i: int|
        #![trigger tables[i]]
        #![trigger keys[i]]
        0 <= i < keys.len() ==> url_of(tables[i]) == Some(keys[i])
}

/// A push keeps the document a mirror of the list: where the keys change by
/// [`pushed`](crate::order::pushed) and the items of the document change by
/// [`promoted`](crate::order::promoted) at the same place and under the same
/// limit, the new item being the table of the pushed key, the document
/// mirrors the list again.
pub proof fn lemma_push_keeps_mirror(
    tables: Seq<Option<Strings>>,
    keys: Seq<Seq<char>>,
    key: Seq<char>,
    limit: nat,
)
    requires
        mirrors(tables, keys),
    ensures
        mirrors(
            crate::order::promoted(
                tables,
                crate::order::position(keys, key),
                limit,
                Some(url_table(key)),
            ),
            crate::order::pushed(keys, key, limit),
        ),
{
    let found = crate::order::position(keys, key);
    let new_tables = crate::order::promoted(tables, found, limit, Some(url_table(key)));
    let new_keys = crate::order::pushed(keys, key, limit);
    assert(url_of(Some(url_table(key))) == Some(key));
    if limit > 0 {
        assert forall|i: int| 0 <= i < new_keys.len() implies url_of(#[trigger] new_tables[i])
            == Some(new_keys[i]) by {
            if i < new_keys.len() - 1 {
                match found {
                    Some(index) => {
                        let source = if i < index { i } else { i + 1 };
                        assert(new_tables[i] == tables[source]);
                        assert(new_keys[i] == keys[source]);
                    },
                    None => {
                        let skipped = crate::order::overflow(keys.len(), limit) as int;
                        assert(new_tables[i] == tables[i + skipped]);
                        assert(new_keys[i] == keys[i + skipped]);
                    },
                }
            }
        }
    }
}

/// The list of recently used entries together with the array of tables that
/// persists it.
///
/// A holder keeps the two in step: the array holds one table for each entry,
/// in the order of the list, with the entry's URL under `url`; and no two
/// entries have the same URL.
pub struct RecentsHolder {
    pub(crate) values: Recents,
    pub(crate) array: ArrayOfTables,
}

impl RecentsHolder {
    /// The entries of the list, least recently used first.
    pub open(crate) spec fn entries(&self) -> Seq<Recent> {
        self.values@
    }

    /// The keys of the entries, in the order of the list.
    pub open spec fn keys(&self) -> Seq<Seq<char>> {
        keys_of(self.entries())
    }

    /// The items of the document, in the order of the array.
    pub open(crate) spec fn tables(&self) -> Seq<Option<Strings>> {
        array_tables(self.array)
    }

    /// What holds of every holder: the document mirrors the list, and no key
    /// occurs twice.
    pub open spec fn wf(&self) -> bool {
        &&& mirrors(self.tables(), self.keys())
        &&& self.keys().no_duplicates()
    }

    /// The invariant of the type: every holder is well formed.
    #[verifier::type_invariant]
    pub(crate) open spec fn inv(&self) -> bool {
        self.wf()
    }

    /// An empty list with an empty array of tables.
    pub fn new() -> (holder: Self)
        ensures
            holder.wf(),
            holder.keys() == Seq::<Seq<char>>::empty(),
            holder.tables() == Seq::<Option<Strings>>::empty(),
    {
        RecentsHolder { values: Vec::new(), array: ArrayOfTables::new() }
    }

    /// Puts a list and an array of tables together, as they were loaded from
    /// a document. The two are accepted exactly when the array mirrors the
    /// list and no two entries of the list have the same URL.
    pub fn from_parts(values: Recents, array: ArrayOfTables) -> (holder: Option<Self>)
        ensures
            holder is Some <==> mirrors(array_tables(array), keys_of(values@)) && keys_of(
                values@,
            ).no_duplicates(),
            holder matches Some(held) ==> held.wf() && held.entries() == values@ && held.tables()
                == array_tables(array),
    {
        if is_mirror(&array, &values) && is_distinct(&values) {
            Some(RecentsHolder { values, array })
        } else {
            None
        }
    }

    /// The list. The document mirrors it, and no key occurs twice in it.
    pub fn values(&self) -> (values: &Recents)
        ensures
            values@ == self.entries(),
            self.wf(),
    {
        proof {
            use_type_invariant(self);
        }
        &self.values
    }

    /// The array of tables of the document. It mirrors the list.
    pub fn array(&self) -> (array: &ArrayOfTables)
        ensures
            array_tables(*array) == self.tables(),
            self.wf(),
    {
        proof {
            use_type_invariant(self);
        }
        &self.array
    }

    /// Takes the holder apart, into the list and the array of tables that
    /// mirrors it.
    pub fn into_parts(self) -> (parts: (Recents, ArrayOfTables))
        ensures
            parts.0@ == self.entries(),
            array_tables(parts.1) == self.tables(),
            self.wf(),
    {
        proof {
            use_type_invariant(&self);
        }
        (self.values, self.array)
    }

    /// Takes the list and the array of tables out of the holder for a
    /// change, and leaves the holder empty until they are put back.
    pub(crate) fn take(&mut self) -> (parts: (Recents, ArrayOfTables))
        ensures
            parts.0@ == old(self).entries(),
            array_tables(parts.1) == old(self).tables(),
            old(self).wf(),
            final(self).entries() == Seq::<Recent>::empty(),
            final(self).tables() == Seq::<Option<Strings>>::empty(),
    {
        proof {
            use_type_invariant(&*self);
        }
        let mut held = RecentsHolder::new();
        core::mem::swap(self, &mut held);
        (held.values, held.array)
    }

    /// Puts the list and the array of tables back after a change.
    pub(crate) fn put(&mut self, values: Recents, array: ArrayOfTables)
        requires
            mirrors(array_tables(array), keys_of(values@)),
            keys_of(values@).no_duplicates(),
        ensures
            final(self).entries() == values@,
            final(self).tables() == array_tables(array),
            final(self).wf(),
    {
        *self = RecentsHolder { values, array };
    }
}

/// Whether the array of tables mirrors the list.
pub fn is_mirror(array: &ArrayOfTables, values: &Recents) -> (yes: bool)
    ensures
        yes == mirrors(array_tables(*array), keys_of(values@)),
{
    if array.len() != values.len() {
        return false;
    }
    let mut index: usize = 0;
    while index < values.len()
        invariant
            index <= values.len(),
            array_tables(*array).len() == values.len(),
            forall|i: int|
                0 <= i < index ==> url_of(#[trigger] array_tables(*array)[i]) == Some(
                    keys_of(values@)[i],
                ),
        decreases values.len() - index,
    {
        let same = match array.get(index) {
            Some(table) => match get_string(table, "url") {
                Some(text) => text.to_owned() == values[index].url.as_str().to_owned(),
                None => false,
            },
            None => false,
        };
        if !same {
            assert(url_of(array_tables(*array)[index as int]) != Some(
                keys_of(values@)[index as int],
            ));
            return false;
        }
        index += 1;
    }
    true
}

/// Whether no two entries of the list have the same URL.
pub fn is_distinct(values: &Recents) -> (yes: bool)
    ensures
        yes == keys_of(values@).no_duplicates(),
{
    let mut later: usize = 0;
    while later < values.len()
        invariant
            later <= values.len(),
            forall|i: int, j: int|
                0 <= i < j < later ==> keys_of(values@)[i] != keys_of(values@)[j],
        decreases values.len() - later,
    {
        let mut earlier: usize = 0;
        while earlier < later
            invariant
                earlier <= later < values.len(),
                forall|i: int|
                    0 <= i < earlier ==> keys_of(values@)[i] != keys_of(values@)[later as int],
            decreases later - earlier,
        {
            if same_url(&values[earlier].url, &values[later].url) {
                assert(keys_of(values@)[earlier as int] == keys_of(values@)[later as int]);
                return false;
            }
            earlier += 1;
        }
        later += 1;
    }
    assert forall|i: int, j: int|
        0 <= i < values.len() && 0 <= j < values.len() && i != j implies keys_of(values@)[i]
        != keys_of(values@)[j] by {
        if i < j {
        } else {
            assert(keys_of(values@)[j] != keys_of(values@)[i]);
        }
    }
    true
}

} // verus!
