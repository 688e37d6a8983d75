use tl::{Status, Timestamp, TodoItem};

const HOUR: i64 = 3_600;
const DAY: i64 = 86_400;
const START: i64 = 1_530_000_000;

fn at(secs: i64, nanos: u32) -> Timestamp {
    Timestamp::new(secs, nanos).unwrap()
}

fn made_at_start(done: bool) -> TodoItem {
    let mut item = TodoItem::new_at("water the plants", 'k', at(START, 0));
    item.done = done;
    item
}

#[test]
fn new_at_makes_an_open_record() {
    let now = at(START, 42);
    let item = TodoItem::new_at("buy milk", 'a', now);
    assert_eq!(item.index, 'a');
    assert_eq!(item.description, "buy milk");
    assert!(!item.done);
    assert_eq!(item.created, now);
    assert_eq!(item.updated, now);
}

#[test]
fn new_at_takes_the_description_as_it_is() {
    let item = TodoItem::new_at("  padded \n", 'Z', at(START, 0));
    assert_eq!(item.description, "  padded \n");
}

#[test]
fn new_makes_an_open_record_now() {
    let before = Timestamp::now();
    let item = TodoItem::new("buy milk", '7');
    assert_eq!(item.index, '7');
    assert_eq!(item.description, "buy milk");
    assert!(!item.done);
    assert_eq!(item.created, item.updated);
    assert!(item.created.nanos_since(&before) > -60_000_000_000);
}

#[test]
fn duplicate_holds_the_same() {
    let mut item = TodoItem::new_at("buy milk", 'a', at(START, 1));
    item.done = true;
    item.updated = at(START + 5, 2);
    let copy = item.duplicate();
    assert_eq!(copy.index, 'a');
    assert_eq!(copy.description, "buy milk");
    assert!(copy.done);
    assert_eq!(copy.created, at(START, 1));
    assert_eq!(copy.updated, at(START + 5, 2));
}

#[test]
fn attr_index_is_the_id() {
    assert_eq!(made_at_start(false).attr("index"), "k");
}

#[test]
fn attr_done_is_true_or_false() {
    assert_eq!(made_at_start(false).attr("done"), "false");
    assert_eq!(made_at_start(true).attr("done"), "true");
}

#[test]
fn attr_created_and_updated_are_the_times_as_text() {
    let mut item = TodoItem::new_at("x", 'a', at(1_431_648_000, 0));
    item.updated = at(1_431_648_060, 500_000_000);
    assert_eq!(item.attr("created"), "2015-05-15 00:00:00 UTC");
    assert_eq!(item.attr("updated"), "2015-05-15 00:01:00.500 UTC");
}

#[test]
fn attr_of_an_unknown_field_is_created() {
    let mut item = TodoItem::new_at("x", 'a', at(1_431_648_000, 0));
    item.updated = at(1_431_648_060, 0);
    for key in ["", "description", "Done", "INDEX", "created ", "by"] {
        assert_eq!(item.attr(key), item.attr("created"));
    }
}

#[test]
fn a_done_record_is_complete_whatever_its_age() {
    let item = made_at_start(true);
    assert_eq!(item.status_at(&at(START, 0)), Status::Complete);
    assert_eq!(item.status_at(&at(START + 10 * DAY, 0)), Status::Complete);
    assert_eq!(item.status_at(&at(START - DAY, 0)), Status::Complete);
}

#[test]
fn an_open_record_is_fresh_for_four_hours() {
    let item = made_at_start(false);
    assert_eq!(item.status_at(&at(START, 0)), Status::Fresh);
    assert_eq!(item.status_at(&at(START + HOUR, 0)), Status::Fresh);
    assert_eq!(item.status_at(&at(START + 4 * HOUR, 0)), Status::Fresh);
}

#[test]
fn an_open_record_is_aging_after_four_hours() {
    let item = made_at_start(false);
    assert_eq!(item.status_at(&at(START + 4 * HOUR, 1)), Status::Aging);
    assert_eq!(item.status_at(&at(START + 12 * HOUR, 0)), Status::Aging);
    assert_eq!(item.status_at(&at(START + DAY, 0)), Status::Aging);
}

#[test]
fn an_open_record_is_stale_after_a_day() {
    let item = made_at_start(false);
    assert_eq!(item.status_at(&at(START + DAY, 1)), Status::Stale);
    assert_eq!(item.status_at(&at(START + 2 * DAY, 0)), Status::Stale);
    assert_eq!(item.status_at(&at(START + 400 * DAY, 0)), Status::Stale);
}

#[test]
fn an_open_record_seen_before_it_was_made_is_fresh() {
    let item = made_at_start(false);
    assert_eq!(item.status_at(&at(START - 3 * DAY, 0)), Status::Fresh);
}

#[test]
fn the_age_counts_nanoseconds() {
    let item = TodoItem::new_at("x", 'a', at(START, 999_999_999));
    assert_eq!(item.status_at(&at(START + 4 * HOUR, 999_999_999)), Status::Fresh);
    assert_eq!(item.status_at(&at(START + 4 * HOUR + 1, 0)), Status::Aging);
    assert_eq!(item.status_at(&at(START + DAY + 1, 0)), Status::Stale);
    assert_eq!(item.status_at(&at(START + DAY, 999_999_999)), Status::Aging);
}

#[test]
fn get_done_of_a_new_record_is_fresh() {
    let item = TodoItem::new("x", 'a');
    assert_eq!(item.get_done(), Status::Fresh);
}

#[test]
fn get_done_of_an_old_record_is_stale() {
    let item = TodoItem::new_at("x", 'a', at(1_431_648_000, 0));
    assert_eq!(item.get_done(), Status::Stale);
}

#[test]
fn get_done_of_a_done_record_is_complete() {
    let mut item = TodoItem::new("x", 'a');
    item.done = true;
    assert_eq!(item.get_done(), Status::Complete);
}
