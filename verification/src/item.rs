//! One record of the list.

use crate::clock::{nanos_between, utc_text, valid_instant, Instant, Timestamp};
use crate::text::same_text;
use vstd::prelude::*;

verus! {

/// Nanoseconds in four hours: an open record older than this is aging.
pub const AGING_NANOS: i128 = 14_400_000_000_000;

/// Nanoseconds in one day: an open record older than this is stale.
pub const STALE_NANOS: i128 = 86_400_000_000_000;

/// How a record is to be shown: done, or open for how long.
#[derive(Clone, Copy, Debug, PartialEq, Eq, Structural)]
pub enum Status {
    /// The record is done.
    Complete,
    /// Open for more than a day.
    Stale,
    /// Open for more than four hours, and for a day at most.
    Aging,
    /// Open for four hours at most.
    Fresh,
}

/// A record of the list.
#[derive(Clone, Debug)]
pub struct TodoItem {
    /// The id under which the list holds the record.
    pub index: char,
    /// What is to be done.
    pub description: String,
    /// Whether it has been done.
    pub done: bool,
    /// When the record was made.
    pub created: Timestamp,
    /// When the record was last changed.
    pub updated: Timestamp,
}

/// What a [`TodoItem`] holds.
pub struct ItemView {
    pub index: char,
    pub description: Seq<char>,
    pub done: bool,
    pub created: Instant,
    pub updated: Instant,
}

impl View for TodoItem {
    type V = ItemView;

    open spec fn view(&self) -> ItemView {
        ItemView {
            index: self.index,
            description: self.description@,
            done: self.done,
            created: self.created@,
            updated: self.updated@,
        }
    }
}

/// The record that a description gets when it is added under `index` at the
/// time `now`: open, made and last changed at that time.
pub open spec fn fresh_item(description: Seq<char>, index: char, now: Instant) -> ItemView {
    ItemView { index, description, done: false, created: now, updated: now }
}

/// The status of a record made at `created`, seen at the time `now`.
pub open spec fn status_of(done: bool, created: Instant, now: Instant) -> Status {
    if done {
        Status::Complete
    } else if nanos_between(created, now) > STALE_NANOS {
        Status::Stale
    } else if nanos_between(created, now) > AGING_NANOS {
        Status::Aging
    } else {
        Status::Fresh
    }
}

/// The text of a record's field, by which a listing orders the records:
/// `index`, `done`, `created` or `updated`. Any other name stands for
/// `created`.
pub open spec fn attr_text(item: ItemView, key: Seq<char>) -> Seq<char> {
    if key == "index"@ {
        seq![item.index]
    } else if key == "done"@ {
        if item.done {
            "true"@
        } else {
            "false"@
        }
    } else if key == "updated"@ {
        utc_text(item.updated.secs, item.updated.nanos)
    } else {
        utc_text(item.created.secs, item.created.nanos)
    }
}

/// A field name that is none of the four known ones orders the records as
/// `created` does.
pub proof fn lemma_unknown_key_is_created(item: ItemView, key: Seq<char>)
    requires
        key != "index"@,
        key != "done"@,
        key != "updated"@,
    ensures
        attr_text(item, key) == attr_text(item, "created"@),
{
    reveal_strlit("index");
    reveal_strlit("done");
    reveal_strlit("updated");
    reveal_strlit("created");
    assert("created"@.len() == 7);
    assert("created"@ != "index"@);
    assert("created"@ != "done"@);
    assert("created"@[0] == 'c');
    assert("updated"@[0] == 'u');
    assert("created"@ != "updated"@);
}

impl TodoItem {
    /// A new open record, made now.
    pub fn new(description: &str, index: char) -> (item: TodoItem)
        ensures
            item@.index == index,
            item@.description == description@,
            !item@.done,
            item@.created == item@.updated,
            valid_instant(item@.created),
    {
        TodoItem::new_at(description, index, Timestamp::now())
    }

    /// A new open record, made at the time `now`.
    pub fn new_at(description: &str, index: char, now: Timestamp) -> (item: TodoItem)
        ensures
            item@ == fresh_item(description@, index, now@),
    {
        TodoItem { index, description: description.to_owned(), done: false, created: now, updated: now }
    }

    /// A second record that holds the same.
    pub fn duplicate(&self) -> (item: TodoItem)
        ensures
            item == *self,
    {
        TodoItem {
            index: self.index,
            description: self.description.clone(),
            done: self.done,
            created: self.created,
            updated: self.updated,
        }
    }

    /// The text of the field named `key`, by which a listing orders the
    /// records.
    pub fn attr(&self, key: &str) -> (s: String)
        ensures
            s@ == attr_text(self@, key@),
    {
        if same_text(key, "index") {
            let mut s = String::new();
            s.push(self.index);
            s
        } else if same_text(key, "done") {
            if self.done {
                "true".to_owned()
            } else {
                "false".to_owned()
            }
        } else if same_text(key, "updated") {
            self.updated.text()
        } else {
            self.created.text()
        }
    }

    /// How the record is to be shown now.
    pub fn get_done(&self) -> (s: Status)
        ensures
            s == Status::Complete <==> self@.done,
            exists|now: Instant| valid_instant(now) && s == status_of(self@.done, self@.created, now),
    {
        let now = Timestamp::now();
        self.status_at(&now)
    }

    /// How the record is to be shown at the time `now`.
    pub fn status_at(&self, now: &Timestamp) -> (s: Status)
        ensures
            s == status_of(self@.done, self@.created, now@),
    {
        if self.done {
            Status::Complete
        } else {
            let age = now.nanos_since(&self.created);
            if age > STALE_NANOS {
                Status::Stale
            } else if age > AGING_NANOS {
                Status::Aging
            } else {
                Status::Fresh
            }
        }
    }
}

} // verus!
