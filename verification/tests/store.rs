use tl::ids::{symbol, ID_COUNT};
use tl::{StoreError, Timestamp, TodoItem, TodoList};

const START: i64 = 1_530_000_000;

fn at(secs: i64, nanos: u32) -> Timestamp {
    Timestamp::new(secs, nanos).unwrap()
}

fn full_list() -> TodoList {
    let mut list = TodoList::new();
    for k in 0..ID_COUNT {
        let id = symbol(k);
        assert_eq!(list.add_with(Some(id), "task", at(START, 0)), Ok(id));
    }
    list
}

fn list_without(free: char) -> TodoList {
    let mut list = full_list();
    assert!(list.remove(free).is_some());
    list
}

#[test]
fn a_new_list_is_empty_and_belongs_to_the_default_file() {
    let list = TodoList::new();
    assert_eq!(list.len(), 0);
    assert_eq!(list.file(), "./todo.json");
    assert!(!list.contains('a'));
    assert!(list.get('a').is_none());
    assert!(list.get_used().is_empty());
}

#[test]
fn add_with_files_the_record_under_the_given_id() {
    let mut list = TodoList::new();
    let now = at(START, 7);
    assert_eq!(list.add_with(Some('q'), "buy milk", now), Ok('q'));
    assert_eq!(list.len(), 1);
    assert!(list.contains('q'));
    let item = list.get('q').unwrap();
    assert_eq!(item.index, 'q');
    assert_eq!(item.description, "buy milk");
    assert!(!item.done);
    assert_eq!(item.created, now);
    assert_eq!(item.updated, now);
}

#[test]
fn add_with_trims_the_end_of_the_description_only() {
    let mut list = TodoList::new();
    assert_eq!(list.add_with(Some('a'), "  write  report \t\n", at(START, 0)), Ok('a'));
    assert_eq!(list.get('a').unwrap().description, "  write  report");
}

#[test]
fn add_with_without_an_id_reports_exhaustion_and_adds_nothing() {
    let mut list = TodoList::new();
    assert_eq!(list.add_with(Some('a'), "one", at(START, 0)), Ok('a'));
    assert_eq!(list.add_with(None, "two", at(START, 0)), Err(StoreError::Exhausted));
    assert_eq!(list.len(), 1);
    assert_eq!(list.get_used(), vec!['a']);
}

#[test]
fn add_mints_an_id_of_the_alphabet() {
    let mut list = TodoList::new();
    let id = list.add("buy milk \n").unwrap();
    assert!(tl::ids::is_index(id));
    assert_eq!(list.len(), 1);
    let item = list.get(id).unwrap();
    assert_eq!(item.index, id);
    assert_eq!(item.description, "buy milk");
    assert!(!item.done);
    assert_eq!(item.created, item.updated);
}

#[test]
fn add_never_hands_out_an_id_twice() {
    let mut list = TodoList::new();
    let mut seen: Vec<char> = Vec::new();
    for n in 0..ID_COUNT {
        let id = list.add("task").unwrap();
        assert!(tl::ids::is_index(id));
        assert!(!seen.contains(&id));
        seen.push(id);
        assert_eq!(list.len(), n + 1);
    }
    assert_eq!(list.get_used().len(), 62);
    assert!(list.get_free().is_empty());
}

#[test]
fn add_to_a_full_list_fails_and_changes_nothing() {
    let mut list = full_list();
    let before = list.write();
    assert_eq!(list.add("one more"), Err(StoreError::Exhausted));
    assert_eq!(list.len(), 62);
    let after = list.write();
    assert_eq!(before.len(), after.len());
    for (b, a) in before.iter().zip(after.iter()) {
        assert_eq!(b.0, a.0);
        assert_eq!(b.1.description, a.1.description);
        assert_eq!(b.1.done, a.1.done);
        assert_eq!(b.1.created, a.1.created);
        assert_eq!(b.1.updated, a.1.updated);
    }
}

#[test]
fn add_works_again_once_a_record_is_removed() {
    let mut list = full_list();
    assert_eq!(list.add("one more"), Err(StoreError::Exhausted));
    assert!(list.remove('m').is_some());
    assert_eq!(list.add("one more"), Ok('m'));
    assert_eq!(list.get('m').unwrap().description, "one more");
}

#[test]
fn get_next_index_is_none_only_for_a_full_list() {
    assert!(full_list().get_next_index().is_none());
    assert!(TodoList::new().get_next_index().is_some());
}

#[test]
fn get_next_index_takes_the_one_id_that_is_left() {
    for free in ['0', '9', 'a', 'z', 'A', 'Z', 'k'] {
        let list = list_without(free);
        for _ in 0..20 {
            assert_eq!(list.get_next_index(), Some(free));
        }
    }
}

#[test]
fn get_next_index_takes_a_free_id() {
    let mut list = TodoList::new();
    for id in ['a', 'b', 'c', '0', 'Z'] {
        assert_eq!(list.add_with(Some(id), "task", at(START, 0)), Ok(id));
    }
    for _ in 0..200 {
        let id = list.get_next_index().unwrap();
        assert!(tl::ids::is_index(id));
        assert!(!list.contains(id));
    }
}

#[test]
fn get_next_index_reaches_every_free_id() {
    let mut list = full_list();
    for id in ['3', 'x', 'Q'] {
        assert!(list.remove(id).is_some());
    }
    let mut seen: Vec<char> = Vec::new();
    for _ in 0..500 {
        let id = list.get_next_index().unwrap();
        if !seen.contains(&id) {
            seen.push(id);
        }
    }
    seen.sort();
    assert_eq!(seen, vec!['3', 'Q', 'x']);
}

#[test]
fn get_used_and_get_free_follow_the_alphabet() {
    let mut list = TodoList::new();
    for id in ['B', 'b', '5', 'a', 'A', '0'] {
        assert_eq!(list.add_with(Some(id), "task", at(START, 0)), Ok(id));
    }
    assert_eq!(list.get_used(), vec!['0', '5', 'a', 'b', 'A', 'B']);
    let free = list.get_free();
    assert_eq!(free.len(), 56);
    assert_eq!(free[0], '1');
    assert_eq!(free[55], 'Z');
    for id in ['B', 'b', '5', 'a', 'A', '0'] {
        assert!(!free.contains(&id));
    }
}

#[test]
fn remove_hands_back_the_description() {
    let mut list = TodoList::new();
    assert_eq!(list.add_with(Some('a'), "buy milk", at(START, 0)), Ok('a'));
    assert_eq!(list.add_with(Some('b'), "write report", at(START, 0)), Ok('b'));
    assert_eq!(list.remove('a'), Some("buy milk".to_string()));
    assert_eq!(list.len(), 1);
    assert!(!list.contains('a'));
    assert_eq!(list.get('b').unwrap().description, "write report");
}

#[test]
fn remove_of_an_unknown_id_finds_nothing() {
    let mut list = TodoList::new();
    assert_eq!(list.add_with(Some('a'), "buy milk", at(START, 0)), Ok('a'));
    assert_eq!(list.remove('b'), None);
    assert_eq!(list.remove('-'), None);
    assert_eq!(list.remove('\u{e9}'), None);
    assert_eq!(list.len(), 1);
    assert_eq!(list.remove('a'), Some("buy milk".to_string()));
    assert_eq!(list.remove('a'), None);
    assert_eq!(list.len(), 0);
}

#[test]
fn done_at_toggles_and_notes_the_time() {
    let mut list = TodoList::new();
    assert_eq!(list.add_with(Some('a'), "buy milk", at(START, 0)), Ok('a'));
    assert!(list.done_at('a', at(START + 10, 5)));
    let item = list.get('a').unwrap();
    assert!(item.done);
    assert_eq!(item.created, at(START, 0));
    assert_eq!(item.updated, at(START + 10, 5));
    assert_eq!(item.description, "buy milk");
    assert_eq!(item.index, 'a');
}

#[test]
fn done_at_twice_gives_back_the_first_answer() {
    let mut list = TodoList::new();
    assert_eq!(list.add_with(Some('a'), "buy milk", at(START, 0)), Ok('a'));
    assert!(list.done_at('a', at(START + 10, 0)));
    assert!(list.done_at('a', at(START + 20, 0)));
    let item = list.get('a').unwrap();
    assert!(!item.done);
    assert_eq!(item.created, at(START, 0));
    assert_eq!(item.updated, at(START + 20, 0));
    assert!(list.done_at('a', at(START + 30, 0)));
    assert!(list.get('a').unwrap().done);
}

#[test]
fn done_at_of_an_unknown_id_changes_nothing() {
    let mut list = TodoList::new();
    assert_eq!(list.add_with(Some('a'), "buy milk", at(START, 0)), Ok('a'));
    assert!(!list.done_at('b', at(START + 10, 0)));
    assert!(!list.done_at('?', at(START + 10, 0)));
    let item = list.get('a').unwrap();
    assert!(!item.done);
    assert_eq!(item.updated, at(START, 0));
    assert_eq!(list.len(), 1);
}

#[test]
fn done_toggles_now() {
    let mut list = TodoList::new();
    assert_eq!(list.add_with(Some('a'), "buy milk", at(START, 0)), Ok('a'));
    assert!(list.done('a'));
    let item = list.get('a').unwrap();
    assert!(item.done);
    assert_eq!(item.created, at(START, 0));
    assert!(item.updated.secs() > START);
    assert!(!list.done('b'));
}

#[test]
fn read_without_a_file_gives_an_empty_list() {
    let list = TodoList::read("no/such/file.json", None).unwrap();
    assert_eq!(list.len(), 0);
    assert!(list.get_used().is_empty());
    assert!(list.write().is_empty());
}

#[test]
fn read_without_a_file_keeps_the_path() {
    let list = TodoList::read("tl.json", None).unwrap();
    assert_eq!(list.file(), "tl.json");
}

#[test]
fn read_takes_the_records_it_is_given() {
    let mut milk = TodoItem::new_at("buy milk", 'a', at(START, 1));
    milk.done = true;
    milk.updated = at(START + 9, 2);
    let report = TodoItem::new_at("write report", 'Z', at(START + 1, 0));
    let list = TodoList::read("tl.json", Some(vec![('Z', report), ('a', milk)])).unwrap();
    assert_eq!(list.file(), "tl.json");
    assert_eq!(list.len(), 2);
    let a = list.get('a').unwrap();
    assert_eq!(a.index, 'a');
    assert_eq!(a.description, "buy milk");
    assert!(a.done);
    assert_eq!(a.created, at(START, 1));
    assert_eq!(a.updated, at(START + 9, 2));
    let z = list.get('Z').unwrap();
    assert_eq!(z.description, "write report");
    assert!(!z.done);
}

#[test]
fn read_of_no_records_gives_an_empty_list() {
    let list = TodoList::read("tl.json", Some(Vec::new())).unwrap();
    assert_eq!(list.len(), 0);
    assert_eq!(list.file(), "tl.json");
}

#[test]
fn read_keeps_descriptions_as_they_are() {
    let item = TodoItem::new_at(" padded \n", 'a', at(START, 0));
    let list = TodoList::read("tl.json", Some(vec![('a', item)])).unwrap();
    assert_eq!(list.get('a').unwrap().description, " padded \n");
}

#[test]
fn read_refuses_an_id_outside_the_alphabet() {
    for id in ['-', ' ', '\u{e9}', '_'] {
        let item = TodoItem::new_at("x", id, at(START, 0));
        assert!(matches!(TodoList::read("tl.json", Some(vec![(id, item)])), Err(StoreError::Corrupt)));
    }
}

#[test]
fn read_refuses_a_record_under_another_id_than_its_own() {
    let item = TodoItem::new_at("x", 'b', at(START, 0));
    assert!(matches!(TodoList::read("tl.json", Some(vec![('a', item)])), Err(StoreError::Corrupt)));
}

#[test]
fn read_refuses_an_id_that_occurs_twice() {
    let one = TodoItem::new_at("x", 'a', at(START, 0));
    let two = TodoItem::new_at("y", 'b', at(START, 0));
    let again = TodoItem::new_at("z", 'a', at(START, 0));
    let r = TodoList::read("tl.json", Some(vec![('a', one), ('b', two), ('a', again)]));
    assert!(matches!(r, Err(StoreError::Corrupt)));
}

#[test]
fn read_refuses_even_if_only_the_last_record_is_bad() {
    let mut entries: Vec<(char, TodoItem)> = Vec::new();
    for k in 0..10 {
        entries.push((symbol(k), TodoItem::new_at("x", symbol(k), at(START, 0))));
    }
    entries.push(('x', TodoItem::new_at("x", 'y', at(START, 0))));
    assert!(matches!(TodoList::read("tl.json", Some(entries)), Err(StoreError::Corrupt)));
}

#[test]
fn write_hands_out_every_record_in_the_order_of_the_alphabet() {
    let mut list = TodoList::new();
    for (id, text) in [('B', "three"), ('b', "two"), ('1', "one")] {
        assert_eq!(list.add_with(Some(id), text, at(START, 0)), Ok(id));
    }
    assert!(list.done_at('b', at(START + 5, 0)));
    let entries = list.write();
    let ids: Vec<char> = entries.iter().map(|e| e.0).collect();
    assert_eq!(ids, vec!['1', 'b', 'B']);
    for (id, item) in entries.iter() {
        assert_eq!(item.index, *id);
    }
    assert_eq!(entries[0].1.description, "one");
    assert_eq!(entries[1].1.description, "two");
    assert!(entries[1].1.done);
    assert_eq!(entries[1].1.updated, at(START + 5, 0));
    assert_eq!(entries[2].1.description, "three");
    assert_eq!(list.len(), 3);
}

#[test]
fn what_was_written_reads_back_the_same() {
    let mut list = TodoList::read("tl.json", None).unwrap();
    for (k, text) in ["buy milk", "write report", "call home"].iter().enumerate() {
        let id = list.add(text).unwrap();
        if k == 1 {
            assert!(list.done_at(id, at(START, 123_456_789)));
        }
    }
    let again = TodoList::read(list.file(), Some(list.write())).unwrap();
    assert_eq!(again.file(), "tl.json");
    assert_eq!(again.len(), list.len());
    assert_eq!(again.get_used(), list.get_used());
    for id in list.get_used() {
        let a = list.get(id).unwrap();
        let b = again.get(id).unwrap();
        assert_eq!(a.index, b.index);
        assert_eq!(a.description, b.description);
        assert_eq!(a.done, b.done);
        assert_eq!(a.created, b.created);
        assert_eq!(a.updated, b.updated);
    }
}

#[test]
fn a_full_list_reads_back_full() {
    let list = full_list();
    let again = TodoList::read("tl.json", Some(list.write())).unwrap();
    assert_eq!(again.len(), 62);
    assert!(again.get_next_index().is_none());
}
