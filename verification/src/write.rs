//! Changes to the list: [`RecentsWriter::push`] and [`RecentsWriter::clear`].
//!
//! Both take the list and the document out of the holder, change the
//! document first and the list second, one item at a time, and put the two
//! back in step. Neither asks anything of its caller.

use crate::document::{array_tables, set_string, Strings};
use crate::entry::{keys_of, same_url, url_text, Recent, Recents};
use crate::holder::{lemma_push_keeps_mirror, url_table, RecentsHolder};
use crate::order::{
    lemma_position_is_unique, lemma_pushed_key_is_last, lemma_pushed_no_duplicates, overflow,
    position, promoted, pushed,
};
use toml_edit::Table;
use url::Url;
use vstd::prelude::*;

verus! {

/// Looks for the entry with the given URL. Returns the first place at which
/// one stands, or `None` where the list holds none.
fn find(values: &Recents, url: &Url) -> (found: Option<usize>)
    ensures
        match found {
            Some(index) => {
                &&& index < values.len()
                &&& keys_of(values@)[index as int] == url_text(*url)
                &&& forall|i: int| 0 <= i < index ==> keys_of(values@)[i] != url_text(*url)
            },
            None => !keys_of(values@).contains(url_text(*url)),
        },
{
    let mut index: usize = 0;
    while index < values.len()
        invariant
            index <= values.len(),
            forall|i: int| 0 <= i < index ==> keys_of(values@)[i] != url_text(*url),
        decreases values.len() - index,
    {
        if same_url(&values[index].url, url) {
            return Some(index);
        }
        index += 1;
    }
    None
}

/// The keys of a list change with the list: the keys of what a push makes of
/// the entries are what the push makes of their keys.
proof fn lemma_keys_of_promoted(entries: Seq<Recent>, found: Option<int>, limit: nat, entry: Recent)
    requires
        found matches Some(index) ==> 0 <= index < entries.len(),
    ensures
        keys_of(promoted(entries, found, limit, entry)) == promoted(
            keys_of(entries),
            found,
            limit,
            entry.key(),
        ),
{
    assert(keys_of(promoted(entries, found, limit, entry)) =~= promoted(
        keys_of(entries),
        found,
        limit,
        entry.key(),
    ));
}

/// The handle through which the list of a [`RecentsHolder`] is changed.
pub struct RecentsWriter<'a>(pub &'a mut RecentsHolder);

impl<'a> RecentsWriter<'a> {
    /// The entries of the list, least recently used first.
    pub open spec fn entries(&self) -> Seq<Recent> {
        self.0.entries()
    }

    /// The keys of the entries, in the order of the list.
    pub open spec fn keys(&self) -> Seq<Seq<char>> {
        self.0.keys()
    }

    /// The items of the document, in the order of the array of tables.
    pub open spec fn tables(&self) -> Seq<Option<Strings>> {
        self.0.tables()
    }

    /// What holds of the holder behind the writer: the document mirrors the
    /// list, and no key occurs twice.
    pub open spec fn wf(&self) -> bool {
        self.0.wf()
    }

    /// A writer for the given holder. What the writer does to the holder is
    /// what the holder is left with.
    pub fn new(recents: &'a mut RecentsHolder) -> (writer: Self)
        ensures
            *writer.0 == *old(recents),
            *final(writer.0) == *final(recents),
    {
        Self(recents)
    }

    /// Empties the list and the document.
    pub fn clear(&mut self)
        ensures
            final(self).wf(),
            final(self).entries() == Seq::<Recent>::empty(),
            final(self).tables() == Seq::<Option<Strings>>::empty(),
            *final(final(self).0) == *final(old(self).0),
    {
        let (mut values, mut array) = self.0.take();
        array.clear();
        values.clear();
        self.0.put(values, array);
    }

    /// Pushes an entry on the list as the most recently used one.
    ///
    /// With limit zero nothing happens. Where an entry with the same URL is
    /// in the list already, it moves to the end, and nothing else changes:
    /// a list that is longer than the limit stays as long as it is.
    /// Otherwise the oldest entries leave the list as far as needed for the
    /// new entry to fit under the limit, and the new entry goes to the end.
    /// The document changes as the list does: the tables of the entries that
    /// stay are kept as they are, and the table at the end is a new one that
    /// holds the URL and nothing else.
    pub fn push(&mut self, recent: Recent, limit: usize)
        ensures
            final(self).wf(),
            final(self).keys() == pushed(old(self).keys(), recent.key(), limit as nat),
            final(self).entries() == promoted(
                old(self).entries(),
                position(old(self).keys(), recent.key()),
                limit as nat,
                match position(old(self).keys(), recent.key()) {
                    Some(index) => old(self).entries()[index],
                    None => recent,
                },
            ),
            final(self).tables() == promoted(
                old(self).tables(),
                position(old(self).keys(), recent.key()),
                limit as nat,
                Some(url_table(recent.key())),
            ),
            limit == 0 ==> *final(self).0 == *old(self).0,
            limit > 0 ==> final(self).keys().len() > 0 && final(self).keys().last()
                == recent.key(),
            limit > 0 && (!old(self).keys().contains(recent.key()) || old(self).keys().len()
                <= limit) ==> final(self).keys().len() <= limit,
            *final(final(self).0) == *final(old(self).0),
    {
        if limit == 0 {
            proof {
                use_type_invariant(&*self.0);
            }
            return;
        }
        let ghost key = recent.key();
        let ghost old_entries = self.0.entries();
        let ghost old_keys = self.0.keys();
        let ghost old_tables = self.0.tables();
        let (mut values, mut array) = self.0.take();
        let existing = find(&values, &recent.url);

        if let Some(index) = existing {
            proof {
                lemma_position_is_unique(old_keys, key, index as int);
            }
            array.remove(index);
            let moved = values.remove(index);

            let mut table = Table::new();
            set_string(&mut table, "url", recent.url.as_str());
            array.push(table);
            values.push(moved);
        } else {
            if values.len() >= limit {
                let elements_to_remove: usize = (values.len() - limit) + 1;

                for removed in 0..elements_to_remove
                    invariant
                        elements_to_remove <= old_entries.len() == old_tables.len(),
                        values@ == old_entries.skip(removed as int),
                        array_tables(array) == old_tables.skip(removed as int),
                {
                    array.remove(0);
                    values.remove(0);
                    assert(values@ =~= old_entries.skip(removed + 1));
                    assert(array_tables(array) =~= old_tables.skip(removed + 1));
                }
            }
            assert(values@ =~= old_entries.skip(overflow(old_entries.len(), limit as nat) as int));
            assert(array_tables(array) =~= old_tables.skip(
                overflow(old_tables.len(), limit as nat) as int,
            ));

            let mut table = Table::new();
            set_string(&mut table, "url", recent.url.as_str());
            array.push(table);
            values.push(recent);
        }
        proof {
            let found = position(old_keys, key);
            let entry = match found {
                Some(index) => old_entries[index],
                None => recent,
            };
            assert(values@ =~= promoted(old_entries, found, limit as nat, entry));
            lemma_keys_of_promoted(old_entries, found, limit as nat, entry);
            lemma_pushed_no_duplicates(old_keys, key, limit as nat);
            lemma_pushed_key_is_last(old_keys, key, limit as nat);
            lemma_push_keeps_mirror(old_tables, old_keys, key, limit as nat);
        }
        self.0.put(values, array);
    }
}

} // verus!
