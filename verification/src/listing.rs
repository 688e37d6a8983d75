//! Listings: the records of a list as rows, ordered by one of their fields.

use crate::clock::{valid_instant, Instant, Timestamp};
use crate::ids::{lemma_rank_symbol, lemma_symbol_rank, rank, symbol, ID_COUNT};
use crate::item::{attr_text, lemma_unknown_key_is_created, status_of, ItemView, Status};
use crate::text::{
    lemma_lex_le_reflexive, lemma_lex_le_total, lemma_lex_le_transitive, lex_le, str_le,
};
use crate::todo::{lemma_ids_count, valid_store, TodoList};
use vstd::prelude::*;

verus! {

/// One row of a listing: what is shown of a record.
#[derive(Clone, Debug)]
pub struct Row {
    /// The record's id.
    pub index: char,
    /// How the record is to be shown.
    pub status: Status,
    /// What is to be done.
    pub description: String,
    /// Whether it has been done.
    pub done: bool,
    /// When the record was made.
    pub created: Timestamp,
}

/// What a [`Row`] holds.
pub struct RowView {
    pub index: char,
    pub status: Status,
    pub description: Seq<char>,
    pub done: bool,
    pub created: Instant,
}

impl View for Row {
    type V = RowView;

    open spec fn view(&self) -> RowView {
        RowView {
            index: self.index,
            status: self.status,
            description: self.description@,
            done: self.done,
            created: self.created@,
        }
    }
}

/// What a vector of rows holds.
pub open spec fn rows_of(rows: Seq<Row>) -> Seq<RowView> {
    rows.map_values(|r: Row| r@)
}

/// The row that shows `item` at the time `now`.
pub open spec fn row_of(item: ItemView, now: Instant) -> RowView {
    RowView {
        index: item.index,
        status: status_of(item.done, item.created, now),
        description: item.description,
        done: item.done,
        created: item.created,
    }
}

/// Some row shows the record with the id `c`.
pub open spec fn has_row(rows: Seq<RowView>, c: char) -> bool {
    exists|i: int| 0 <= i < rows.len() && (#[trigger] rows[i]).index == c
}

/// `rows` lists the records of `m` as they show at the time `now`: one row
/// for every record and none besides, in ascending order of the text of the
/// field `by`. Records of equal text may come in any order.
pub open spec fn is_listing(
    rows: Seq<RowView>,
    m: Map<char, ItemView>,
    by: Seq<char>,
    now: Instant,
) -> bool {
    &&& forall|i: int|
        0 <= i < rows.len() ==> m.contains_key((#[trigger] rows[i]).index) && rows[i] == row_of(
            m[rows[i].index],
            now,
        )
    &&& forall|i: int, j: int|
        0 <= i < j < rows.len() ==> (#[trigger] rows[i]).index != (#[trigger] rows[j]).index
    &&& forall|c: char| #[trigger] m.contains_key(c) ==> has_row(rows, c)
    &&& forall|i: int, j: int|
        0 <= i <= j < rows.len() ==> lex_le(
            attr_text(m[(#[trigger] rows[i]).index], by),
            attr_text(m[(#[trigger] rows[j]).index], by),
        )
}

/// A listing by `done` shows every open record before every record that is
/// done.
pub proof fn lemma_open_before_done(rows: Seq<RowView>, m: Map<char, ItemView>, now: Instant)
    requires
        is_listing(rows, m, "done"@, now),
    ensures
        forall|i: int, j: int|
            0 <= i < j < rows.len() && (#[trigger] rows[i]).done ==> (#[trigger] rows[j]).done,
{
    reveal_strlit("done");
    reveal_strlit("index");
    reveal_strlit("true");
    reveal_strlit("false");
    assert("done"@ != "index"@) by {
        assert("done"@.len() == 4);
        assert("index"@.len() == 5);
    }
    assert(!lex_le("true"@, "false"@)) by {
        assert("true"@[0] == 't');
        assert("false"@[0] == 'f');
    }
    assert forall|i: int, j: int| 0 <= i < j < rows.len() && (#[trigger] rows[i]).done implies (
    #[trigger] rows[j]).done by {
        let a = m[rows[i].index];
        let b = m[rows[j].index];
        assert(lex_le(attr_text(a, "done"@), attr_text(b, "done"@)));
        assert(a.done == rows[i].done);
        assert(b.done == rows[j].done);
    }
}

/// A listing by a field name that is none of `index`, `done`, `created` and
/// `updated` is a listing by `created`.
pub proof fn lemma_unknown_key_lists_by_created(
    rows: Seq<RowView>,
    m: Map<char, ItemView>,
    by: Seq<char>,
    now: Instant,
)
    requires
        by != "index"@,
        by != "done"@,
        by != "updated"@,
        is_listing(rows, m, by, now),
    ensures
        is_listing(rows, m, "created"@, now),
{
    assert forall|i: int, j: int| 0 <= i <= j < rows.len() implies lex_le(
        attr_text(m[(#[trigger] rows[i]).index], "created"@),
        attr_text(m[(#[trigger] rows[j]).index], "created"@),
    ) by {
        lemma_unknown_key_is_created(m[rows[i].index], by);
        lemma_unknown_key_is_created(m[rows[j].index], by);
    }
}

/// A listing has as many rows as the list has records.
pub proof fn lemma_listing_has_all(
    rows: Seq<RowView>,
    m: Map<char, ItemView>,
    by: Seq<char>,
    now: Instant,
)
    requires
        is_listing(rows, m, by, now),
    ensures
        m.dom().finite(),
        rows.len() == m.len(),
{
    let ids = rows.map_values(|r: RowView| r.index);
    assert forall|i: int, j: int| 0 <= i < ids.len() && 0 <= j < ids.len() && i != j implies ids[i]
        != ids[j] by {
        if i < j {
            assert(rows[i].index != rows[j].index);
        } else {
            assert(rows[j].index != rows[i].index);
        }
    }
    assert forall|i: int| 0 <= i < ids.len() implies m.contains_key(#[trigger] ids[i]) by {
        assert(m.contains_key(rows[i].index));
    }
    assert forall|c: char| #[trigger] m.contains_key(c) implies ids.contains(c) by {
        assert(has_row(rows, c));
        let i = choose|i: int| 0 <= i < rows.len() && (#[trigger] rows[i]).index == c;
        assert(ids[i] == c);
    }
    lemma_ids_count(ids, m);
}

/// Where the elements of a sequence stand after one more was put in at `p`.
proof fn lemma_insert<A>(s: Seq<A>, p: int, x: A)
    requires
        0 <= p <= s.len(),
    ensures
        s.insert(p, x).len() == s.len() + 1,
        forall|i: int| 0 <= i < p ==> #[trigger] s.insert(p, x)[i] == s[i],
        s.insert(p, x)[p] == x,
        forall|i: int| p < i <= s.len() ==> #[trigger] s.insert(p, x)[i] == s[i - 1],
{
}

impl TodoList {
    /// The records as rows, as they show at the time `now`, in ascending
    /// order of the text of the field `by`: `index`, `done`, `created` or
    /// `updated`, and `created` for any other name. The list is left as it
    /// is.
    pub fn show_at(&self, by: &str, now: &Timestamp) -> (rows: Vec<Row>)
        ensures
            is_listing(rows_of(rows@), self@, by@, now@),
            rows@.len() == self@.len(),
    {
        let mut rows: Vec<Row> = Vec::new();
        let mut keys: Vec<String> = Vec::new();
        let mut k: usize = 0;
        proof {
            use_type_invariant(self);
            self.lemma_is_valid();
        }
        while k < ID_COUNT
            invariant
                k <= ID_COUNT,
                valid_store(self@),
                rows@.len() == keys@.len(),
                forall|i: int|
                    0 <= i < rows@.len() ==> {
                        let c = (#[trigger] rows@[i]).index;
                        &&& self@.contains_key(c)
                        &&& rank(c) < k
                        &&& rows@[i]@ == row_of(self@[c], now@)
                        &&& keys@[i]@ == attr_text(self@[c], by@)
                    },
                forall|i: int, j: int|
                    0 <= i < j < rows@.len() ==> (#[trigger] rows@[i]).index != (
                    #[trigger] rows@[j]).index,
                forall|c: char| #[trigger]
                    self@.contains_key(c) && rank(c) < k ==> has_row(rows_of(rows@), c),
                forall|i: int, j: int|
                    0 <= i <= j < keys@.len() ==> lex_le(
                        (#[trigger] keys@[i])@,
                        (#[trigger] keys@[j])@,
                    ),
            decreases ID_COUNT - k,
        {
            let c = symbol(k);
            proof {
                lemma_symbol_rank(k as int);
            }
            let ghost rows0 = rows@;
            let ghost keys0 = keys@;
            match self.get(c) {
                Some(item) => {
                    let key = item.attr(by);
                    let row = Row {
                        index: c,
                        status: item.status_at(now),
                        description: item.description.clone(),
                        done: item.done,
                        created: item.created,
                    };
                    let mut p: usize = 0;
                    while p < keys.len() && str_le(keys[p].as_str(), key.as_str())
                        invariant
                            p <= keys@.len(),
                            forall|j: int| 0 <= j < p ==> lex_le((#[trigger] keys@[j])@, key@),
                        decreases keys@.len() - p,
                    {
                        p = p + 1;
                    }
                    proof {
                        assert forall|j: int| p <= j < keys0.len() implies lex_le(
                            key@,
                            (#[trigger] keys0[j])@,
                        ) by {
                            lemma_lex_le_total(key@, keys0[p as int]@);
                            lemma_lex_le_transitive(key@, keys0[p as int]@, keys0[j]@);
                        }
                        lemma_insert(rows0, p as int, row);
                        lemma_insert(keys0, p as int, key);
                    }
                    let ghost key_text = key@;
                    keys.insert(p, key);
                    rows.insert(p, row);
                    proof {
                        lemma_lex_le_reflexive(key_text);
                        assert forall|i: int, j: int| 0 <= i <= j < keys@.len() implies lex_le(
                            (#[trigger] keys@[i])@,
                            (#[trigger] keys@[j])@,
                        ) by {
                            if i < p && j > p {
                                assert(lex_le(keys0[i]@, keys0[j - 1]@));
                            } else if i > p {
                                assert(lex_le(keys0[i - 1]@, keys0[j - 1]@));
                            } else if j < p {
                                assert(lex_le(keys0[i]@, keys0[j]@));
                            } else if i == p && j > p {
                                assert(lex_le(key_text, keys0[j - 1]@));
                            }
                        }
                        assert(rows@[p as int].index == c);
                        assert forall|d: char| #[trigger]
                            self@.contains_key(d) && rank(d) < k + 1 implies has_row(
                            rows_of(rows@),
                            d,
                        ) by {
                            if d == c {
                                assert(rows_of(rows@)[p as int].index == c);
                            } else {
                                lemma_rank_symbol(d);
                                assert(has_row(rows_of(rows0), d));
                                let i = choose|i: int|
                                    0 <= i < rows_of(rows0).len() && (#[trigger] rows_of(
                                        rows0,
                                    )[i]).index == d;
                                if i < p {
                                    assert(rows_of(rows@)[i].index == d);
                                } else {
                                    assert(rows_of(rows@)[i + 1].index == d);
                                }
                            }
                        }
                    }
                },
                None => {
                    proof {
                        assert forall|d: char| #[trigger]
                            self@.contains_key(d) && rank(d) < k + 1 implies has_row(
                            rows_of(rows@),
                            d,
                        ) by {
                            lemma_rank_symbol(d);
                        }
                    }
                },
            }
            k = k + 1;
        }
        proof {
            let shown = rows_of(rows@);
            assert forall|c: char| #[trigger] self@.contains_key(c) implies has_row(shown, c) by {
                lemma_rank_symbol(c);
            }
            assert forall|i: int, j: int| 0 <= i <= j < shown.len() implies lex_le(
                attr_text(self@[(#[trigger] shown[i]).index], by@),
                attr_text(self@[(#[trigger] shown[j]).index], by@),
            ) by {
                assert(lex_le(keys@[i]@, keys@[j]@));
            }
            lemma_listing_has_all(shown, self@, by@, now@);
        }
        rows
    }

    /// The records as rows, as they show now, ordered as
    /// [`TodoList::show_at`] orders them.
    pub fn show(&self, by: &str) -> (rows: Vec<Row>)
        ensures
            exists|now: Instant|
                valid_instant(now) && #[trigger] is_listing(rows_of(rows@), self@, by@, now),
            rows@.len() == self@.len(),
    {
        let now = Timestamp::now();
        self.show_at(by, &now)
    }
}

} // verus!
