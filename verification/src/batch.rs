//! Whole commands: several descriptions added, several ids removed or
//! toggled, each with a report of what became of every one.

use crate::clock::{valid_instant, Instant, Timestamp};
use crate::ids::{is_id, ID_COUNT};
use crate::item::{fresh_item, ItemView};
use crate::text::{same_text, trimmed};
use crate::todo::{is_full, lemma_full_has_all, valid_store, TodoList};
use vstd::prelude::*;
use vstd::seq_lib::seq_to_set_is_finite;
use vstd::set_lib::lemma_set_disjoint_lens;

verus! {

/// The argument that stands for the lines of the input stream.
pub const STREAM: &'static str = "-";

/// The texts that a vector of strings holds.
pub open spec fn texts(v: Seq<String>) -> Seq<Seq<char>> {
    v.map_values(|s: String| s@)
}

/// The descriptions that the arguments `items` name: each argument stands for
/// itself, but the first `-` stands for the lines of the input stream, and a
/// later `-` for nothing, since the stream is then at its end.
pub open spec fn expanded(items: Seq<Seq<char>>, lines: Seq<Seq<char>>) -> Seq<Seq<char>>
    decreases items.len(),
{
    if items.len() == 0 {
        Seq::empty()
    } else if items[0] == STREAM@ {
        lines + expanded(items.drop_first(), Seq::empty())
    } else {
        seq![items[0]] + expanded(items.drop_first(), lines)
    }
}

/// What became of a batch of descriptions.
#[derive(Debug)]
pub struct AddReport {
    /// The ids of the records that were added, in the order of their
    /// descriptions.
    pub added: Vec<char>,
    /// The descriptions that found no id, as they were given.
    pub rejected: Vec<String>,
}

/// `after` is `before` with the first descriptions added at the time `now`,
/// one record each under the ids `added`, which are new and differ from one
/// another; `rejected` are the descriptions that follow, for which no id was
/// left.
pub open spec fn is_addition(
    before: Map<char, ItemView>,
    after: Map<char, ItemView>,
    descriptions: Seq<Seq<char>>,
    now: Instant,
    added: Seq<char>,
    rejected: Seq<Seq<char>>,
) -> bool {
    &&& added.len() <= descriptions.len()
    &&& rejected == descriptions.skip(added.len() as int)
    &&& rejected.len() > 0 ==> is_full(after)
    &&& forall|i: int|
        0 <= i < added.len() ==> {
            &&& is_id(#[trigger] added[i])
            &&& !before.contains_key(added[i])
            &&& after.contains_key(added[i])
            &&& after[added[i]] == fresh_item(trimmed(descriptions[i]), added[i], now)
        }
    &&& forall|i: int, j: int|
        0 <= i < j < added.len() ==> #[trigger] added[i] != #[trigger] added[j]
    &&& forall|c: char| #[trigger]
        before.contains_key(c) ==> after.contains_key(c) && after[c] == before[c]
    &&& forall|c: char| #[trigger]
        after.contains_key(c) ==> before.contains_key(c) || added.contains(c)
}

/// With every id in use before, a batch adds nothing and changes nothing.
pub proof fn lemma_full_list_takes_nothing(
    before: Map<char, ItemView>,
    after: Map<char, ItemView>,
    descriptions: Seq<Seq<char>>,
    now: Instant,
    added: Seq<char>,
    rejected: Seq<Seq<char>>,
)
    requires
        is_full(before),
        is_addition(before, after, descriptions, now, added, rejected),
    ensures
        added.len() == 0,
        rejected == descriptions,
        after == before,
{
    if added.len() > 0 {
        assert(is_id(added[0]) && !before.contains_key(added[0]));
    }
    assert forall|c: char| after.contains_key(c) implies before.contains_key(c) by {
        if !before.contains_key(c) {
            let i = choose|i: int| 0 <= i < added.len() && added[i] == c;
        }
    }
    assert(after =~= before);
    assert(descriptions.skip(0) =~= descriptions);
}

/// A batch adds as many records as it names descriptions, or as many as ids
/// were left where those are fewer.
pub proof fn lemma_addition_count(
    before: Map<char, ItemView>,
    after: Map<char, ItemView>,
    descriptions: Seq<Seq<char>>,
    now: Instant,
    added: Seq<char>,
    rejected: Seq<Seq<char>>,
)
    requires
        valid_store(before),
        valid_store(after),
        is_addition(before, after, descriptions, now, added, rejected),
    ensures
        after.len() == before.len() + added.len(),
        added.len() == if descriptions.len() <= ID_COUNT - before.len() {
            descriptions.len() as int
        } else {
            ID_COUNT - before.len()
        },
{
    let new_ids = added.to_set();
    seq_to_set_is_finite(added);
    assert(added.no_duplicates()) by {
        assert forall|i: int, j: int|
            0 <= i < added.len() && 0 <= j < added.len() && i != j implies added[i] != added[j] by {
            if i < j {
                assert(added[i] != added[j]);
            } else {
                assert(added[j] != added[i]);
            }
        }
    }
    added.unique_seq_to_set();
    assert forall|c: char| before.dom().contains(c) implies !new_ids.contains(c) by {
        if new_ids.contains(c) {
            let i = choose|i: int| 0 <= i < added.len() && added[i] == c;
            assert(!before.contains_key(added[i]));
        }
    }
    assert(before.dom().disjoint(new_ids));
    assert forall|c: char| after.dom().contains(c) == (before.dom() + new_ids).contains(c) by {
        if new_ids.contains(c) {
            let i = choose|i: int| 0 <= i < added.len() && added[i] == c;
            assert(after.contains_key(added[i]));
        }
    }
    assert(after.dom() =~= before.dom() + new_ids);
    lemma_set_disjoint_lens(before.dom(), new_ids);
    lemma_full_has_all(before);
    lemma_full_has_all(after);
}

/// Without a `-` among them the arguments are the descriptions.
pub proof fn lemma_expanded_without_stream(items: Seq<Seq<char>>, lines: Seq<Seq<char>>)
    requires
        forall|i: int| 0 <= i < items.len() ==> #[trigger] items[i] != STREAM@,
    ensures
        expanded(items, lines) == items,
    decreases items.len(),
{
    if items.len() > 0 {
        lemma_expanded_without_stream(items.drop_first(), lines);
        assert(seq![items[0]] + items.drop_first() =~= items);
    }
}

/// What removing the ids `ids` one after the other does at the id in place
/// `i`: where the list holds a record under it that no earlier place has
/// removed, the record leaves and its description is reported; else nothing
/// is found.
pub open spec fn removal(m: Map<char, ItemView>, ids: Seq<char>, i: int) -> Option<Seq<char>> {
    if m.contains_key(ids[i]) && !ids.take(i).contains(ids[i]) {
        Some(m[ids[i]].description)
    } else {
        None
    }
}

/// The text of a description that was reported, if one was.
pub open spec fn text_of(o: Option<String>) -> Option<Seq<char>> {
    match o {
        Some(s) => Some(s@),
        None => None,
    }
}

/// How often `c` occurs among `ids`.
pub open spec fn occurrences(ids: Seq<char>, c: char) -> nat
    decreases ids.len(),
{
    if ids.len() == 0 {
        0
    } else {
        occurrences(ids.drop_last(), c) + if ids.last() == c {
            1nat
        } else {
            0nat
        }
    }
}

/// The record after its completion was toggled `n` times, the last time at
/// `now`: untouched if `n` is 0, and else done or open as before if `n` is
/// even, the other way round if it is odd.
pub open spec fn toggled_times(item: ItemView, n: nat, now: Instant) -> ItemView {
    if n == 0 {
        item
    } else {
        ItemView {
            done: if n % 2 == 1 {
                !item.done
            } else {
                item.done
            },
            updated: now,
            ..item
        }
    }
}

/// `after` holds the records of `before`, each toggled once for every time
/// its id occurs among `ids`.
pub open spec fn is_toggling(
    before: Map<char, ItemView>,
    after: Map<char, ItemView>,
    ids: Seq<char>,
    now: Instant,
) -> bool {
    &&& after.dom() == before.dom()
    &&& forall|c: char| #[trigger]
        before.contains_key(c) ==> after[c] == toggled_times(before[c], occurrences(ids, c), now)
}

/// Whether the arguments ask for the lines of the input stream.
pub fn wants_lines(items: &Vec<String>) -> (r: bool)
    ensures
        r == exists|i: int| 0 <= i < items.len() && (#[trigger] items[i])@ == STREAM@,
{
    let mut i: usize = 0;
    while i < items.len()
        invariant
            i <= items.len(),
            forall|j: int| 0 <= j < i ==> (#[trigger] items[j])@ != STREAM@,
        decreases items.len() - i,
    {
        if same_text(items[i].as_str(), STREAM) {
            return true;
        }
        i = i + 1;
    }
    false
}

/// The descriptions that the arguments `items` name, with `lines` read from
/// the input stream.
pub fn expand(items: &Vec<String>, lines: &Vec<String>) -> (out: Vec<String>)
    ensures
        texts(out@) == expanded(texts(items@), texts(lines@)),
{
    let ghost all = texts(items@);
    let mut out: Vec<String> = Vec::new();
    let mut streamed = false;
    let mut i: usize = 0;
    assert(all.skip(0) =~= all);
    while i < items.len()
        invariant
            i <= items.len(),
            all == texts(items@),
            expanded(all, texts(lines@)) == texts(out@) + expanded(
                all.skip(i as int),
                if streamed {
                    Seq::empty()
                } else {
                    texts(lines@)
                },
            ),
        decreases items.len() - i,
    {
        let ghost before = texts(out@);
        let ghost rest = all.skip(i as int);
        assert(rest.drop_first() =~= all.skip(i + 1));
        assert(rest[0] == items[i as int]@);
        if same_text(items[i].as_str(), STREAM) {
            if !streamed {
                let mut j: usize = 0;
                while j < lines.len()
                    invariant
                        j <= lines.len(),
                        texts(out@) == before + texts(lines@).take(j as int),
                    decreases lines.len() - j,
                {
                    let ghost so_far = out@;
                    out.push(lines[j].clone());
                    assert(texts(out@) =~= texts(so_far).push(lines[j as int]@));
                    assert(texts(lines@).take(j + 1) =~= texts(lines@).take(j as int).push(
                        lines[j as int]@,
                    ));
                    j = j + 1;
                }
                assert(texts(lines@).take(lines.len() as int) =~= texts(lines@));
                streamed = true;
            } else {
                assert(before + Seq::<Seq<char>>::empty() =~= before);
            }
            assert(expanded(all, texts(lines@)) =~= texts(out@) + expanded(
                all.skip(i + 1),
                Seq::empty(),
            ));
        } else {
            let ghost so_far = out@;
            out.push(items[i].clone());
            assert(texts(out@) =~= texts(so_far).push(items[i as int]@));
            assert(texts(out@) =~= before + seq![items[i as int]@]);
            assert(expanded(all, texts(lines@)) =~= texts(out@) + expanded(
                all.skip(i + 1),
                if streamed {
                    Seq::empty()
                } else {
                    texts(lines@)
                },
            ));
        }
        i = i + 1;
    }
    assert(texts(out@) + Seq::<Seq<char>>::empty() =~= texts(out@));
    out
}

impl TodoList {
    /// Adds a record for each description that `items` and `lines` name (see
    /// [`expanded`]), all made at the time `now`, each under an id drawn at
    /// random from those still free. Once no id is left, the descriptions
    /// that remain are rejected; the records added before stay.
    pub fn add_many_at(&mut self, items: &Vec<String>, lines: &Vec<String>, now: Timestamp) -> (report:
        AddReport)
        ensures
            final(self).path() == old(self).path(),
            valid_store(final(self)@),
            is_addition(
                old(self)@,
                final(self)@,
                expanded(texts(items@), texts(lines@)),
                now@,
                report.added@,
                texts(report.rejected@),
            ),
            final(self)@.len() == old(self)@.len() + report.added@.len(),
    {
        let descriptions = expand(items, lines);
        let ghost all = texts(descriptions@);
        let ghost before = self@;
        let mut added: Vec<char> = Vec::new();
        let mut rejected: Vec<String> = Vec::new();
        let mut i: usize = 0;
        proof {
            use_type_invariant(&*self);
            self.lemma_is_valid();
            assert(texts(rejected@) =~= all.subrange(0, 0));
        }
        while i < descriptions.len()
            invariant
                i <= descriptions.len(),
                all == texts(descriptions@),
                self.path() == old(self).path(),
                valid_store(self@),
                added@.len() + rejected@.len() == i,
                texts(rejected@) == all.subrange(added@.len() as int, i as int),
                rejected@.len() > 0 ==> is_full(self@),
                forall|k: int|
                    0 <= k < added@.len() ==> {
                        &&& is_id(#[trigger] added@[k])
                        &&& !before.contains_key(added@[k])
                        &&& self@.contains_key(added@[k])
                        &&& self@[added@[k]] == fresh_item(trimmed(all[k]), added@[k], now@)
                    },
                forall|k: int, l: int|
                    0 <= k < l < added@.len() ==> #[trigger] added@[k] != #[trigger] added@[l],
                forall|c: char| #[trigger]
                    before.contains_key(c) ==> self@.contains_key(c) && self@[c] == before[c],
                forall|c: char| #[trigger]
                    self@.contains_key(c) ==> before.contains_key(c) || added@.contains(c),
            decreases descriptions.len() - i,
        {
            let ghost held = self@;
            let ghost ids = added@;
            let ghost left = rejected@;
            match self.get_next_index() {
                Some(c) => {
                    let r = self.add_with(Some(c), descriptions[i].as_str(), now);
                    added.push(c);
                    proof {
                        assert(added@[ids.len() as int] == c);
                        assert(left.len() == 0);
                        assert(texts(rejected@) =~= all.subrange(added@.len() as int, i + 1));
                        assert forall|d: char| #[trigger] self@.contains_key(d) implies before.contains_key(
                            d,
                        ) || added@.contains(d) by {
                            if d != c && !before.contains_key(d) {
                                assert(held.contains_key(d));
                                let k = choose|k: int| 0 <= k < ids.len() && ids[k] == d;
                                assert(added@[k] == d);
                            }
                        }
                    }
                },
                None => {
                    rejected.push(descriptions[i].clone());
                    proof {
                        assert(texts(rejected@) =~= texts(left).push(descriptions[i as int]@));
                        assert(texts(rejected@) =~= all.subrange(added@.len() as int, i + 1));
                    }
                },
            }
            i = i + 1;
        }
        proof {
            assert(all.subrange(added@.len() as int, i as int) =~= all.skip(added@.len() as int));
            lemma_addition_count(before, self@, all, now@, added@, texts(rejected@));
        }
        AddReport { added, rejected }
    }

    /// Removes the records held under the ids `items`, one id after the
    /// other, and reports for each id the description of the record that
    /// left, or `None` where there was no record to remove.
    pub fn remove_many(&mut self, items: Vec<char>) -> (report: Vec<Option<String>>)
        ensures
            final(self).path() == old(self).path(),
            valid_store(final(self)@),
            final(self)@ == old(self)@.remove_keys(items@.to_set()),
            report@.len() == items@.len(),
            forall|i: int|
                0 <= i < items@.len() ==> text_of(#[trigger] report@[i]) == removal(
                    old(self)@,
                    items@,
                    i,
                ),
    {
        let ghost before = self@;
        let mut report: Vec<Option<String>> = Vec::new();
        let mut i: usize = 0;
        proof {
            use_type_invariant(&*self);
            self.lemma_is_valid();
            assert(self@ =~= before.remove_keys(items@.take(0).to_set()));
        }
        while i < items.len()
            invariant
                i <= items.len(),
                self.path() == old(self).path(),
                valid_store(self@),
                self@ == before.remove_keys(items@.take(i as int).to_set()),
                report@.len() == i,
                forall|k: int|
                    0 <= k < i ==> text_of(#[trigger] report@[k]) == removal(before, items@, k),
            decreases items.len() - i,
        {
            let ghost seen = items@.take(i as int);
            let c = items[i];
            let r = self.remove(c);
            proof {
                assert(items@.take(i + 1) =~= seen.push(c));
                assert(seen.push(c).to_set() =~= seen.to_set().insert(c)) by {
                    assert forall|d: char| seen.push(c).to_set().contains(d) implies seen.to_set().insert(
                        c,
                    ).contains(d) by {
                        let k = choose|k: int| 0 <= k < seen.push(c).len() && seen.push(c)[k] == d;
                        if k < seen.len() {
                            assert(seen[k] == d);
                        }
                    }
                    assert forall|d: char| seen.to_set().insert(c).contains(d) implies seen.push(
                        c,
                    ).to_set().contains(d) by {
                        if d == c {
                            assert(seen.push(c)[seen.len() as int] == c);
                        } else {
                            let k = choose|k: int| 0 <= k < seen.len() && seen[k] == d;
                            assert(seen.push(c)[k] == d);
                        }
                    }
                }
                assert(self@ =~= before.remove_keys(items@.take(i + 1).to_set()));
                assert(seen.to_set().contains(c) <==> seen.contains(c));
                assert(text_of(r) == removal(before, items@, i as int));
            }
            report.push(r);
            i = i + 1;
        }
        proof {
            assert(items@.take(items@.len() as int) =~= items@);
        }
        report
    }

    /// Toggles the completion of the records held under the ids `items`, one
    /// id after the other, and notes `now` as the time of their last change.
    /// Reports for each id whether there is a record under it.
    pub fn done_many_at(&mut self, items: Vec<char>, now: Timestamp) -> (found: Vec<bool>)
        ensures
            final(self).path() == old(self).path(),
            valid_store(final(self)@),
            is_toggling(old(self)@, final(self)@, items@, now@),
            found@.len() == items@.len(),
            forall|i: int|
                0 <= i < items@.len() ==> #[trigger] found@[i] == old(self)@.contains_key(items@[i]),
    {
        let ghost before = self@;
        let mut found: Vec<bool> = Vec::new();
        let mut i: usize = 0;
        proof {
            use_type_invariant(&*self);
            self.lemma_is_valid();
        }
        while i < items.len()
            invariant
                i <= items.len(),
                self.path() == old(self).path(),
                valid_store(self@),
                is_toggling(before, self@, items@.take(i as int), now@),
                found@.len() == i,
                forall|k: int| 0 <= k < i ==> #[trigger] found@[k] == before.contains_key(items@[k]),
            decreases items.len() - i,
        {
            let ghost held = self@;
            let c = items[i];
            let f = self.done_at(c, now);
            proof {
                assert(items@.take(i + 1).drop_last() =~= items@.take(i as int));
                assert(self@.dom() =~= before.dom());
            }
            found.push(f);
            i = i + 1;
        }
        proof {
            assert(items@.take(items@.len() as int) =~= items@);
        }
        found
    }

    /// Toggles the completion of the records held under the ids `items`, as
    /// [`TodoList::done_many_at`] does, at the time of the call.
    pub fn done_many(&mut self, items: Vec<char>) -> (found: Vec<bool>)
        ensures
            final(self).path() == old(self).path(),
            valid_store(final(self)@),
            exists|now: Instant|
                valid_instant(now) && #[trigger] is_toggling(
                    old(self)@,
                    final(self)@,
                    items@,
                    now,
                ),
            found@.len() == items@.len(),
            forall|i: int|
                0 <= i < items@.len() ==> #[trigger] found@[i] == old(self)@.contains_key(items@[i]),
    {
        let now = Timestamp::now();
        self.done_many_at(items, now)
    }

    /// Adds a record for each description that `items` and `lines` name, as
    /// [`TodoList::add_many_at`] does, all made at the time of the call.
    pub fn add_many(&mut self, items: &Vec<String>, lines: &Vec<String>) -> (report: AddReport)
        ensures
            final(self).path() == old(self).path(),
            valid_store(final(self)@),
            exists|now: Instant|
                valid_instant(now) && #[trigger] is_addition(
                    old(self)@,
                    final(self)@,
                    expanded(texts(items@), texts(lines@)),
                    now,
                    report.added@,
                    texts(report.rejected@),
                ),
            final(self)@.len() == old(self)@.len() + report.added@.len(),
    {
        let now = Timestamp::now();
        self.add_many_at(items, lines, now)
    }
}

} // verus!
