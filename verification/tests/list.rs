use recents::holder::{is_distinct, is_mirror};
use recents::{Recent, RecentsHolder, RecentsWriter};
use toml_edit::{value, ArrayOfTables, Item, Table};
use url::Url;

fn recent(name: &str) -> Recent {
    Recent {
        url: Url::parse(&format!("file:///{name}.swf")).unwrap(),
    }
}

/// A holder that `names` were pushed on, each under a limit that lets all of
/// them stay.
fn holder_of(names: &[&str]) -> RecentsHolder {
    let mut holder = RecentsHolder::new();
    let mut writer = RecentsWriter::new(&mut holder);
    for name in names {
        writer.push(recent(name), names.len());
    }
    holder
}

/// The URLs of the list, in its order.
fn list(holder: &RecentsHolder) -> Vec<String> {
    holder
        .values()
        .iter()
        .map(|recent| recent.url.as_str().to_owned())
        .collect()
}

/// The strings under `url` of the tables of the document, in their order.
fn document(holder: &RecentsHolder) -> Vec<String> {
    holder
        .array()
        .iter()
        .map(|table| table["url"].as_str().unwrap().to_owned())
        .collect()
}

fn urls(names: &[&str]) -> Vec<String> {
    names
        .iter()
        .map(|name| format!("file:///{name}.swf"))
        .collect()
}

fn table(url: &str) -> Table {
    let mut table = Table::new();
    table["url"] = value(url);
    table
}

#[test]
fn new_holder_is_empty() {
    let holder = RecentsHolder::new();
    assert!(holder.values().is_empty());
    assert_eq!(holder.array().len(), 0);
}

#[test]
fn push_on_empty_list() {
    let mut holder = RecentsHolder::new();
    RecentsWriter::new(&mut holder).push(recent("1"), 10);
    assert_eq!(list(&holder), urls(&["1"]));
    assert_eq!(document(&holder), urls(&["1"]));
}

#[test]
fn push_evicts_enough_to_fit() {
    let mut holder = holder_of(&["1", "2", "3"]);
    RecentsWriter::new(&mut holder).push(recent("very_important"), 2);
    assert_eq!(list(&holder), urls(&["3", "very_important"]));
    assert_eq!(document(&holder), urls(&["3", "very_important"]));
}

#[test]
fn push_moves_to_top() {
    let mut holder = holder_of(&["very_important", "2", "3"]);
    RecentsWriter::new(&mut holder).push(recent("very_important"), 3);
    assert_eq!(list(&holder), urls(&["2", "3", "very_important"]));
    assert_eq!(document(&holder), urls(&["2", "3", "very_important"]));
}

#[test]
fn push_moves_from_the_middle() {
    let mut holder = holder_of(&["1", "2", "3", "4"]);
    RecentsWriter::new(&mut holder).push(recent("2"), 10);
    assert_eq!(list(&holder), urls(&["1", "3", "4", "2"]));
    assert_eq!(document(&holder), urls(&["1", "3", "4", "2"]));
}

#[test]
fn push_of_the_last_entry_changes_nothing() {
    let mut holder = holder_of(&["1", "2", "3"]);
    RecentsWriter::new(&mut holder).push(recent("3"), 3);
    assert_eq!(list(&holder), urls(&["1", "2", "3"]));
    assert_eq!(document(&holder), urls(&["1", "2", "3"]));
}

#[test]
fn push_at_the_limit_evicts_one() {
    let mut holder = holder_of(&["1", "2", "3"]);
    RecentsWriter::new(&mut holder).push(recent("4"), 3);
    assert_eq!(list(&holder), urls(&["2", "3", "4"]));
    assert_eq!(document(&holder), urls(&["2", "3", "4"]));
}

#[test]
fn push_under_the_limit_evicts_nothing() {
    let mut holder = holder_of(&["1", "2", "3"]);
    RecentsWriter::new(&mut holder).push(recent("4"), 4);
    assert_eq!(list(&holder), urls(&["1", "2", "3", "4"]));
    assert_eq!(document(&holder), urls(&["1", "2", "3", "4"]));
}

#[test]
fn push_over_the_limit_evicts_the_overflow_and_one() {
    // Five entries under a limit of three: (5 - 3) + 1 = 3 of them leave.
    let mut holder = holder_of(&["1", "2", "3", "4", "5"]);
    RecentsWriter::new(&mut holder).push(recent("6"), 3);
    assert_eq!(list(&holder), urls(&["4", "5", "6"]));
    assert_eq!(document(&holder), urls(&["4", "5", "6"]));
}

#[test]
fn push_under_a_limit_of_one_keeps_only_the_new_entry() {
    let mut holder = holder_of(&["1", "2", "3"]);
    RecentsWriter::new(&mut holder).push(recent("4"), 1);
    assert_eq!(list(&holder), urls(&["4"]));
    assert_eq!(document(&holder), urls(&["4"]));
}

#[test]
fn move_to_top_does_not_trim_a_list_over_the_limit() {
    let mut holder = holder_of(&["1", "2", "3"]);
    RecentsWriter::new(&mut holder).push(recent("1"), 2);
    assert_eq!(list(&holder), urls(&["2", "3", "1"]));
    assert_eq!(document(&holder), urls(&["2", "3", "1"]));
}

#[test]
fn push_with_limit_zero_changes_nothing() {
    let mut holder = holder_of(&["1", "2", "3"]);
    let before = holder.array().to_string();
    let mut writer = RecentsWriter::new(&mut holder);
    writer.push(recent("4"), 0);
    writer.push(recent("2"), 0);
    assert_eq!(list(&holder), urls(&["1", "2", "3"]));
    assert_eq!(document(&holder), urls(&["1", "2", "3"]));
    assert_eq!(holder.array().to_string(), before);
}

#[test]
fn push_with_limit_zero_on_empty_list() {
    let mut holder = RecentsHolder::new();
    RecentsWriter::new(&mut holder).push(recent("1"), 0);
    assert!(holder.values().is_empty());
    assert!(holder.array().is_empty());
}

#[test]
fn push_twice_is_push_once() {
    let mut once = holder_of(&["1", "2", "3"]);
    RecentsWriter::new(&mut once).push(recent("2"), 3);
    let mut twice = holder_of(&["1", "2", "3"]);
    let mut writer = RecentsWriter::new(&mut twice);
    writer.push(recent("2"), 3);
    writer.push(recent("2"), 3);
    assert_eq!(list(&twice), urls(&["1", "3", "2"]));
    assert_eq!(list(&twice), list(&once));
    assert_eq!(document(&twice), document(&once));
}

#[test]
fn push_twice_of_a_new_entry() {
    let mut holder = holder_of(&["1", "2", "3"]);
    let mut writer = RecentsWriter::new(&mut holder);
    writer.push(recent("4"), 3);
    writer.push(recent("4"), 3);
    assert_eq!(list(&holder), urls(&["2", "3", "4"]));
    assert_eq!(document(&holder), urls(&["2", "3", "4"]));
}

#[test]
fn document_mirrors_list_after_every_change() {
    let mut holder = RecentsHolder::new();
    let steps: [(&str, usize); 9] = [
        ("1", 3),
        ("2", 3),
        ("1", 3),
        ("3", 3),
        ("4", 3),
        ("5", 0),
        ("2", 2),
        ("4", 1),
        ("6", 5),
    ];
    for (name, limit) in steps {
        RecentsWriter::new(&mut holder).push(recent(name), limit);
        assert!(is_mirror(holder.array(), holder.values()));
        assert!(is_distinct(holder.values()));
        assert_eq!(list(&holder), document(&holder));
        assert_eq!(holder.array().len(), holder.values().len());
    }
    assert_eq!(list(&holder), urls(&["2", "4", "6"]));
    RecentsWriter::new(&mut holder).clear();
    assert!(is_mirror(holder.array(), holder.values()));
    assert_eq!(holder.array().len(), 0);
    assert_eq!(holder.values().len(), 0);
}

#[test]
fn list_stays_under_the_limit() {
    for limit in 1..6 {
        let mut holder = RecentsHolder::new();
        let mut writer = RecentsWriter::new(&mut holder);
        for name in ["1", "2", "3", "1", "4", "5", "2", "6", "7"] {
            writer.push(recent(name), limit);
            assert!(writer.0.values().len() <= limit);
        }
        assert_eq!(holder.values().len(), limit);
    }
}

#[test]
fn pushed_entry_is_last_and_occurs_once() {
    let mut holder = holder_of(&["1", "2", "3"]);
    for name in ["2", "4", "1", "1", "3"] {
        RecentsWriter::new(&mut holder).push(recent(name), 4);
        let list = list(&holder);
        let url = format!("file:///{name}.swf");
        assert_eq!(list.last(), Some(&url));
        assert_eq!(list.iter().filter(|other| **other == url).count(), 1);
    }
}

#[test]
fn clear_empties_list_and_document() {
    let mut holder = holder_of(&["1", "2", "3"]);
    RecentsWriter::new(&mut holder).clear();
    assert!(holder.values().is_empty());
    assert!(holder.array().is_empty());
}

#[test]
fn clear_of_empty_list() {
    let mut holder = RecentsHolder::new();
    RecentsWriter::new(&mut holder).clear();
    assert!(holder.values().is_empty());
    assert!(holder.array().is_empty());
}

#[test]
fn push_after_clear() {
    let mut holder = holder_of(&["1", "2"]);
    let mut writer = RecentsWriter::new(&mut holder);
    writer.clear();
    writer.push(recent("2"), 2);
    assert_eq!(list(&holder), urls(&["2"]));
    assert_eq!(document(&holder), urls(&["2"]));
}

#[test]
fn keys_are_compared_in_full() {
    let mut holder = holder_of(&["1"]);
    let mut writer = RecentsWriter::new(&mut holder);
    writer.push(recent("11"), 5);
    writer.push(
        Recent {
            url: Url::parse("file:///1.swf?x").unwrap(),
        },
        5,
    );
    assert_eq!(
        list(&holder),
        vec!["file:///1.swf", "file:///11.swf", "file:///1.swf?x"]
    );
}

#[test]
fn new_table_holds_the_url_and_nothing_else() {
    let mut holder = RecentsHolder::new();
    RecentsWriter::new(&mut holder).push(recent("1"), 1);
    let table = holder.array().get(0).unwrap();
    assert_eq!(table.len(), 1);
    assert_eq!(table["url"].as_str(), Some("file:///1.swf"));
}

#[test]
fn tables_of_entries_that_stay_are_kept() {
    let mut first = table("file:///1.swf");
    first["note"] = value("kept");
    let mut array = ArrayOfTables::new();
    array.push(first);
    array.push(table("file:///2.swf"));
    let mut holder = RecentsHolder::from_parts(vec![recent("1"), recent("2")], array).unwrap();
    RecentsWriter::new(&mut holder).push(recent("3"), 3);
    assert_eq!(holder.array().get(0).unwrap()["note"].as_str(), Some("kept"));
    RecentsWriter::new(&mut holder).push(recent("1"), 3);
    assert_eq!(list(&holder), urls(&["2", "3", "1"]));
    assert!(holder.array().get(2).unwrap().get("note").is_none());
}

#[test]
fn from_parts_accepts_a_mirror() {
    let mut array = ArrayOfTables::new();
    array.push(table("file:///1.swf"));
    array.push(table("file:///2.swf"));
    let holder = RecentsHolder::from_parts(vec![recent("1"), recent("2")], array).unwrap();
    assert_eq!(list(&holder), urls(&["1", "2"]));
    assert_eq!(document(&holder), urls(&["1", "2"]));
}

#[test]
fn from_parts_accepts_empty_parts() {
    let holder = RecentsHolder::from_parts(Vec::new(), ArrayOfTables::new()).unwrap();
    assert!(holder.values().is_empty());
}

#[test]
fn from_parts_refuses_other_lengths() {
    let mut array = ArrayOfTables::new();
    array.push(table("file:///1.swf"));
    assert!(RecentsHolder::from_parts(vec![recent("1"), recent("2")], array.clone()).is_none());
    assert!(RecentsHolder::from_parts(Vec::new(), array).is_none());
}

#[test]
fn from_parts_refuses_another_url() {
    let mut array = ArrayOfTables::new();
    array.push(table("file:///1.swf"));
    array.push(table("file:///3.swf"));
    assert!(RecentsHolder::from_parts(vec![recent("1"), recent("2")], array).is_none());
}

#[test]
fn from_parts_refuses_another_order() {
    let mut array = ArrayOfTables::new();
    array.push(table("file:///2.swf"));
    array.push(table("file:///1.swf"));
    assert!(RecentsHolder::from_parts(vec![recent("1"), recent("2")], array).is_none());
}

#[test]
fn from_parts_refuses_a_table_without_url() {
    let mut array = ArrayOfTables::new();
    array.push(Table::new());
    assert!(RecentsHolder::from_parts(vec![recent("1")], array).is_none());
}

#[test]
fn from_parts_refuses_a_url_that_is_no_string() {
    let mut other = Table::new();
    other["url"] = value(1);
    let mut array = ArrayOfTables::new();
    array.push(other);
    assert!(RecentsHolder::from_parts(vec![recent("1")], array).is_none());
}

#[test]
fn from_parts_refuses_an_item_that_is_no_table() {
    let mut array = ArrayOfTables::new();
    array.push(table("file:///1.swf"));
    let mut item = Item::ArrayOfTables(array);
    item[0] = Item::None;
    let array = item.into_array_of_tables().unwrap();
    assert_eq!(array.len(), 1);
    assert!(array.get(0).is_none());
    assert!(!is_mirror(&array, &vec![recent("1")]));
    assert!(RecentsHolder::from_parts(vec![recent("1")], array).is_none());
}

#[test]
fn from_parts_refuses_duplicates() {
    let mut array = ArrayOfTables::new();
    array.push(table("file:///1.swf"));
    array.push(table("file:///2.swf"));
    array.push(table("file:///1.swf"));
    assert!(
        RecentsHolder::from_parts(vec![recent("1"), recent("2"), recent("1")], array).is_none()
    );
}

#[test]
fn is_mirror_compares_each_place() {
    let mut array = ArrayOfTables::new();
    array.push(table("file:///1.swf"));
    array.push(table("file:///2.swf"));
    assert!(is_mirror(&array, &vec![recent("1"), recent("2")]));
    assert!(!is_mirror(&array, &vec![recent("1"), recent("3")]));
    assert!(!is_mirror(&array, &vec![recent("1")]));
    assert!(is_mirror(&ArrayOfTables::new(), &Vec::new()));
}

#[test]
fn is_distinct_finds_a_repeated_url() {
    assert!(is_distinct(&vec![recent("1"), recent("2"), recent("3")]));
    assert!(!is_distinct(&vec![recent("1"), recent("2"), recent("1")]));
    assert!(!is_distinct(&vec![recent("2"), recent("2")]));
    assert!(is_distinct(&Vec::new()));
}

#[test]
fn into_parts_hands_out_list_and_document() {
    let holder = holder_of(&["1", "2"]);
    let (values, array) = holder.into_parts();
    assert_eq!(values, vec![recent("1"), recent("2")]);
    assert_eq!(array.len(), 2);
    assert_eq!(array.get(1).unwrap()["url"].as_str(), Some("file:///2.swf"));
}
