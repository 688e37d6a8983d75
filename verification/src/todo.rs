//! The list itself: records under their ids, and the file it belongs to.

use crate::clock::{valid_instant, Instant, Timestamp};
use crate::ids::{
    alphabet, is_id, is_index, lemma_rank_symbol, lemma_symbol_rank, rank, symbol, ID_COUNT,
};
use crate::item::{fresh_item, ItemView, TodoItem};
use crate::text::{trim_trailing, trimmed};
use rand::Rng;
use std::collections::HashMap;
use vstd::prelude::*;
use vstd::relations::injective_on;
use vstd::seq_lib::seq_to_set_is_finite;
use vstd::set_lib::{lemma_len_subset, lemma_map_size, lemma_subset_equality};
use vstd::std_specs::hash::group_hash_axioms;

verus! {

broadcast use group_hash_axioms;

/// The path that a list made with `TodoList::new` belongs to.
pub const DEFAULT_FILE: &'static str = "./todo.json";

/// What holds of every list: it is finite, every id is a symbol of the
/// alphabet, and every record carries the id it is held under, so that no two
/// records share an id.
pub open spec fn valid_store(m: Map<char, ItemView>) -> bool {
    &&& m.dom().finite()
    &&& forall|c: char| #[trigger] m.contains_key(c) ==> is_id(c) && m[c].index == c
}

/// No id is left: every symbol of the alphabet is in use.
pub open spec fn is_full(m: Map<char, ItemView>) -> bool {
    forall|c: char| is_id(c) ==> #[trigger] m.contains_key(c)
}

/// No two records of a list share an id, and every id is a symbol of the
/// alphabet.
pub proof fn lemma_ids_are_distinct(m: Map<char, ItemView>, a: char, b: char)
    requires
        valid_store(m),
        m.contains_key(a),
        m.contains_key(b),
        a != b,
    ensures
        m[a].index != m[b].index,
        is_id(m[a].index),
        is_id(m[b].index),
{
}

/// A list is full exactly when it holds as many records as the alphabet has
/// symbols, and it never holds more.
pub proof fn lemma_full_has_all(m: Map<char, ItemView>)
    requires
        valid_store(m),
    ensures
        m.len() <= ID_COUNT,
        is_full(m) <==> m.len() == ID_COUNT,
{
    let ids = alphabet().to_set();
    seq_to_set_is_finite(alphabet());
    assert forall|i: int, j: int|
        0 <= i < alphabet().len() && 0 <= j < alphabet().len() && i != j implies alphabet()[i]
        != alphabet()[j] by {
        lemma_symbol_rank(i);
        lemma_symbol_rank(j);
    }
    alphabet().unique_seq_to_set();
    assert forall|c: char| m.dom().contains(c) implies ids.contains(c) by {
        lemma_rank_symbol(c);
        assert(alphabet()[rank(c)] == c);
    }
    lemma_len_subset(m.dom(), ids);
    if is_full(m) {
        assert forall|c: char| ids.contains(c) implies m.dom().contains(c) by {
            let i = choose|i: int| 0 <= i < alphabet().len() && alphabet()[i] == c;
            lemma_symbol_rank(i);
            assert(m.contains_key(c));
        }
        assert(m.dom() =~= ids);
    }
    if m.len() == ID_COUNT {
        lemma_subset_equality(m.dom(), ids);
        assert forall|c: char| is_id(c) implies #[trigger] m.contains_key(c) by {
            lemma_rank_symbol(c);
            assert(alphabet()[rank(c)] == c);
            assert(ids.contains(c));
        }
    }
}

/// Ids that differ from one another and are exactly those in use are as many
/// as the list has records.
pub proof fn lemma_ids_count(ids: Seq<char>, m: Map<char, ItemView>)
    requires
        ids.no_duplicates(),
        forall|i: int| 0 <= i < ids.len() ==> m.contains_key(#[trigger] ids[i]),
        forall|c: char| #[trigger] m.contains_key(c) ==> ids.contains(c),
    ensures
        m.dom().finite(),
        ids.len() == m.len(),
{
    seq_to_set_is_finite(ids);
    assert forall|c: char| ids.to_set().contains(c) == m.dom().contains(c) by {
        if ids.contains(c) {
            let i = choose|i: int| 0 <= i < ids.len() && ids[i] == c;
            assert(m.contains_key(ids[i]));
        }
    }
    assert(ids.to_set() =~= m.dom());
    ids.unique_seq_to_set();
}

/// The record as it is after its completion was toggled at the time `now`.
pub open spec fn toggled(item: ItemView, now: Instant) -> ItemView {
    ItemView { done: !item.done, updated: now, ..item }
}

/// Why the list could not do what was asked.
#[derive(Clone, Copy, Debug, PartialEq, Eq, Structural)]
pub enum StoreError {
    /// What was read for the list cannot be one: an id outside the alphabet,
    /// a record under another id than its own, or an id that occurs twice.
    Corrupt,
    /// Every id is in use: records have to be removed before one is added.
    Exhausted,
}

/// What a vector of records with the ids they were filed under holds.
pub open spec fn entries_of(v: Seq<(char, TodoItem)>) -> Seq<(char, ItemView)> {
    v.map_values(|e: (char, TodoItem)| (e.0, e.1@))
}

/// The entries can be the records of a list: every id is a symbol of the
/// alphabet, every record carries the id it was filed under, and no id
/// occurs twice.
pub open spec fn valid_entries(e: Seq<(char, ItemView)>) -> bool {
    &&& forall|i: int| 0 <= i < e.len() ==> is_id((#[trigger] e[i]).0) && e[i].1.index == e[i].0
    &&& forall|i: int, j: int| 0 <= i < j < e.len() ==> (#[trigger] e[i]).0 != (#[trigger] e[j]).0
}

/// Some entry is filed under the id `c`.
pub open spec fn has_entry(e: Seq<(char, ItemView)>, c: char) -> bool {
    exists|i: int| 0 <= i < e.len() && (#[trigger] e[i]).0 == c
}

/// `m` holds the records of the entries, each under its id, and no others.
pub open spec fn holds_entries(m: Map<char, ItemView>, e: Seq<(char, ItemView)>) -> bool {
    &&& forall|i: int| 0 <= i < e.len() ==> m.contains_key((#[trigger] e[i]).0) && m[e[i].0] == e[i].1
    &&& forall|c: char| #[trigger] m.contains_key(c) ==> has_entry(e, c)
}

/// A list read from the entries that a list wrote holds the same records:
/// entries stand for one list only.
pub proof fn lemma_entries_round_trip(
    written: Map<char, ItemView>,
    read: Map<char, ItemView>,
    e: Seq<(char, ItemView)>,
)
    requires
        holds_entries(written, e),
        holds_entries(read, e),
    ensures
        read == written,
{
    assert forall|c: char| read.contains_key(c) == written.contains_key(c) by {
        if read.contains_key(c) {
            assert(has_entry(e, c));
        }
        if written.contains_key(c) {
            assert(has_entry(e, c));
        }
    }
    assert forall|c: char| read.contains_key(c) implies read[c] == written[c] by {
        assert(has_entry(e, c));
    }
    assert(read =~= written);
}

/// Toggling a record twice leaves it done or open as it was; of the rest only
/// the time of its last change differs.
pub proof fn lemma_toggle_twice(
    m: Map<char, ItemView>,
    index: char,
    first: Instant,
    second: Instant,
)
    requires
        m.contains_key(index),
    ensures
        ({
            let once = m.insert(index, toggled(m[index], first));
            let twice = once.insert(index, toggled(once[index], second));
            &&& twice[index].done == m[index].done
            &&& twice == m.insert(index, ItemView { updated: second, ..m[index] })
        }),
{
    let once = m.insert(index, toggled(m[index], first));
    let twice = once.insert(index, toggled(once[index], second));
    assert(twice =~= m.insert(index, ItemView { updated: second, ..m[index] }));
}

/// `ids` holds, in the order of the alphabet, exactly the ids that `m` has in
/// use (where `used` is true) or exactly those it has free (where it is
/// false).
pub open spec fn lists_ids(ids: Seq<char>, m: Map<char, ItemView>, used: bool) -> bool {
    &&& forall|i: int|
        0 <= i < ids.len() ==> is_id(#[trigger] ids[i]) && m.contains_key(ids[i]) == used
    &&& forall|c: char| is_id(c) && m.contains_key(c) == used ==> #[trigger] ids.contains(c)
    &&& forall|i: int, j: int|
        0 <= i < j < ids.len() ==> rank(#[trigger] ids[i]) < rank(#[trigger] ids[j])
}

/// Ids in the order of the alphabet differ from one another.
pub proof fn lemma_ranked_ids_differ(ids: Seq<char>)
    requires
        forall|i: int, j: int|
            0 <= i < j < ids.len() ==> rank(#[trigger] ids[i]) < rank(#[trigger] ids[j]),
    ensures
        ids.no_duplicates(),
{
    assert forall|i: int, j: int| 0 <= i < ids.len() && 0 <= j < ids.len() && i != j implies ids[i]
        != ids[j] by {
        if i < j {
            assert(rank(ids[i]) < rank(ids[j]));
        } else {
            assert(rank(ids[j]) < rank(ids[i]));
        }
    }
}

/// Draws one of `choices` with `rand`'s thread-local generator, through
/// `Rng::choose`: nothing if there is no choice, else one of them. Which one
/// is left open. `rand` panics where the system cannot seed the generator.
#[verifier::external_body]
fn choose_one(choices: &Vec<char>) -> (r: Option<char>)
    ensures
        choices@.len() == 0 ==> r is None,
        choices@.len() > 0 ==> r is Some && choices@.contains(r->0),
{
    rand::thread_rng().choose(choices).cloned()
}

/// The records of a list, each under its one-character id, and the path of the
/// file the list belongs to.
#[derive(Debug)]
pub struct TodoList {
    // Keyed by the id's code point: vstd models hash maps for integer keys.
    items: HashMap<u32, TodoItem>,
    file: String,
}

impl View for TodoList {
    type V = Map<char, ItemView>;

    closed spec fn view(&self) -> Map<char, ItemView> {
        Map::new(
            |c: char| is_id(c) && self.items@.contains_key(c as u32),
            |c: char| self.items@[c as u32]@,
        )
    }
}

impl TodoList {
    #[verifier::type_invariant]
    pub(crate) closed spec fn inv(self) -> bool {
        forall|k: u32| #[trigger]
            self.items@.contains_key(k) ==> k == self.items@[k].index as u32 && is_id(
                self.items@[k].index,
            )
    }

    /// The path of the file the list belongs to.
    pub closed spec fn path(&self) -> Seq<char> {
        self.file@
    }

    /// What is kept of the records makes the list a valid one.
    pub(crate) proof fn lemma_is_valid(self)
        requires
            self.inv(),
        ensures
            valid_store(self@),
    {
        self.lemma_valid();
    }

    proof fn lemma_valid(self)
        requires
            self.inv(),
        ensures
            valid_store(self@),
            self@.len() == self.items@.len(),
    {
        let ids = alphabet().to_set();
        seq_to_set_is_finite(alphabet());
        assert forall|c: char| self@.dom().contains(c) implies ids.contains(c) by {
            let k = c as u32;
            assert(self.items@.contains_key(k));
            assert(self.items@[k].index as u32 == k);
            assert(self.items@[k].index == c);
            lemma_rank_symbol(c);
            assert(alphabet()[rank(c)] == c);
        }
        lemma_len_subset(self@.dom(), ids);
        let code = |c: char| c as u32;
        assert(injective_on(code, self@.dom()));
        assert forall|k: u32| self.items@.dom().contains(k) implies self@.dom().map(code).contains(
            k,
        ) by {
            let c = self.items@[k].index;
            assert(self@.dom().contains(c));
            assert(code(c) == k);
        }
        assert(self@.dom().map(code) =~= self.items@.dom());
        lemma_map_size(self@.dom(), self.items@.dom(), code);
    }

    /// Takes the records out, so that they can be changed and put back: a
    /// list is never left half changed.
    fn take_items(&mut self) -> (items: HashMap<u32, TodoItem>)
        ensures
            items == old(self).items,
            final(self).file == old(self).file,
            final(self).items@ == Map::<u32, TodoItem>::empty(),
    {
        let mut items: HashMap<u32, TodoItem> = HashMap::new();
        core::mem::swap(&mut self.items, &mut items);
        items
    }

    /// An empty list that belongs to the default file.
    pub fn new() -> (list: TodoList)
        ensures
            list@ == Map::<char, ItemView>::empty(),
            list.path() == DEFAULT_FILE@,
            valid_store(list@),
    {
        let list = TodoList { items: HashMap::new(), file: DEFAULT_FILE.to_owned() };
        proof {
            list.lemma_valid();
            assert(list@ =~= Map::<char, ItemView>::empty());
        }
        list
    }

    /// The list that was read from the file at `path`: `contents` holds the
    /// records found there with the ids they were filed under, or nothing if
    /// there was no file to read. No file gives an empty list, which belongs
    /// to `path` like any other, so that it is saved where it was looked
    /// for. Entries that cannot be the records of a list are refused.
    pub fn read(path: &str, contents: Option<Vec<(char, TodoItem)>>) -> (r: Result<
        TodoList,
        StoreError,
    >)
        ensures
            match contents {
                None => r matches Ok(list) && list@ == Map::<char, ItemView>::empty(),
                Some(entries) => if valid_entries(entries_of(entries@)) {
                    r matches Ok(list) && holds_entries(list@, entries_of(entries@))
                } else {
                    r matches Err(e) && e == StoreError::Corrupt
                },
            },
            r matches Ok(list) ==> list.path() == path@ && valid_store(list@),
    {
        let mut items: HashMap<u32, TodoItem> = HashMap::new();
        match &contents {
            None => {},
            Some(entries) => {
                let ghost e = entries_of(entries@);
                let mut i: usize = 0;
                while i < entries.len()
                    invariant
                        i <= entries.len(),
                        contents == Some(*entries),
                        e == entries_of(entries@),
                        valid_entries(e.take(i as int)),
                        forall|k: u32| #[trigger]
                            items@.contains_key(k) ==> k == items@[k].index as u32 && is_id(
                                items@[k].index,
                            ),
                        forall|j: int|
                            0 <= j < i ==> items@.contains_key((#[trigger] e[j]).0 as u32)
                                && items@[e[j].0 as u32]@ == e[j].1,
                        forall|k: u32| #[trigger]
                            items@.contains_key(k) ==> has_entry(e.take(i as int), items@[k].index),
                    decreases entries.len() - i,
                {
                    let key = entries[i].0;
                    let k: u32 = key as u32;
                    if !is_index(key) || entries[i].1.index != key || items.contains_key(&k) {
                        proof {
                            if valid_entries(e) {
                                assert(is_id(e[i as int].0) && e[i as int].1.index == e[i as int].0);
                                let c = items@[k].index;
                                assert(has_entry(e.take(i as int), c));
                                let j = choose|j: int|
                                    0 <= j < e.take(i as int).len() && (#[trigger] e.take(
                                        i as int,
                                    )[j]).0 == c;
                                assert(e[j].0 == e[i as int].0);
                            }
                        }
                        return Err(StoreError::Corrupt);
                    }
                    let ghost held = items@;
                    items.insert(k, entries[i].1.duplicate());
                    proof {
                        let next = e.take(i + 1);
                        assert forall|a: int, b: int| 0 <= a < b < next.len() implies (
                        #[trigger] next[a]).0 != (#[trigger] next[b]).0 by {
                            if b == i {
                                assert(held.contains_key(e[a].0 as u32));
                            } else {
                                assert(e.take(i as int)[a].0 != e.take(i as int)[b].0);
                            }
                        }
                        assert forall|a: int| 0 <= a < next.len() implies is_id(
                            (#[trigger] next[a]).0,
                        ) && next[a].1.index == next[a].0 by {
                            if a < i {
                                assert(is_id(e.take(i as int)[a].0));
                            }
                        }
                        assert forall|q: u32| #[trigger] items@.contains_key(q) implies has_entry(
                            next,
                            items@[q].index,
                        ) by {
                            if q == k {
                                assert(next[i as int].0 == key);
                            } else {
                                let c = held[q].index;
                                assert(has_entry(e.take(i as int), c));
                                let j = choose|j: int|
                                    0 <= j < e.take(i as int).len() && (#[trigger] e.take(
                                        i as int,
                                    )[j]).0 == c;
                                assert(next[j].0 == c);
                            }
                        }
                    }
                    i = i + 1;
                }
                proof {
                    assert(e.take(entries.len() as int) =~= e);
                }
            },
        }
        let list = TodoList { items, file: path.to_owned() };
        proof {
            list.lemma_valid();
            match contents {
                None => {
                    assert(list@ =~= Map::<char, ItemView>::empty());
                },
                Some(entries) => {
                    let e = entries_of(entries@);
                    assert forall|c: char| #[trigger] list@.contains_key(c) implies has_entry(e, c) by {
                        assert(list.items@.contains_key(c as u32));
                    }
                },
            }
        }
        Ok(list)
    }

    /// The records to be saved to the file the list belongs to, each with
    /// its id, in the order of the alphabet.
    pub fn write(&self) -> (entries: Vec<(char, TodoItem)>)
        ensures
            valid_entries(entries_of(entries@)),
            holds_entries(self@, entries_of(entries@)),
            entries@.len() == self@.len(),
            forall|i: int, j: int|
                0 <= i < j < entries@.len() ==> rank((#[trigger] entries@[i]).0) < rank(
                    (#[trigger] entries@[j]).0,
                ),
    {
        let mut entries: Vec<(char, TodoItem)> = Vec::new();
        let mut k: usize = 0;
        proof {
            use_type_invariant(self);
            self.lemma_valid();
        }
        while k < ID_COUNT
            invariant
                k <= ID_COUNT,
                valid_store(self@),
                forall|i: int|
                    0 <= i < entries@.len() ==> {
                        let c = (#[trigger] entries@[i]).0;
                        &&& self@.contains_key(c)
                        &&& rank(c) < k
                        &&& entries@[i].1@ == self@[c]
                    },
                forall|i: int, j: int|
                    0 <= i < j < entries@.len() ==> rank((#[trigger] entries@[i]).0) < rank(
                        (#[trigger] entries@[j]).0,
                    ),
                forall|c: char| #[trigger]
                    self@.contains_key(c) && rank(c) < k ==> has_entry(entries_of(entries@), c),
            decreases ID_COUNT - k,
        {
            let c = symbol(k);
            proof {
                lemma_symbol_rank(k as int);
            }
            let ghost before = entries@;
            match self.get(c) {
                Some(item) => {
                    entries.push((c, item.duplicate()));
                    proof {
                        assert(entries_of(entries@)[before.len() as int].0 == c);
                    }
                },
                None => {},
            }
            proof {
                assert forall|d: char| #[trigger]
                    self@.contains_key(d) && rank(d) < k + 1 implies has_entry(
                    entries_of(entries@),
                    d,
                ) by {
                    lemma_rank_symbol(d);
                    if d != c {
                        assert(has_entry(entries_of(before), d));
                        let i = choose|i: int|
                            0 <= i < entries_of(before).len() && (#[trigger] entries_of(before)[i]).0
                                == d;
                        assert(entries_of(entries@)[i].0 == d);
                    }
                }
            }
            k = k + 1;
        }
        proof {
            let e = entries_of(entries@);
            assert forall|c: char| #[trigger] self@.contains_key(c) implies has_entry(e, c) by {
                lemma_rank_symbol(c);
            }
            let ids = entries@.map_values(|e: (char, TodoItem)| e.0);
            assert forall|c: char| #[trigger] self@.contains_key(c) implies ids.contains(c) by {
                assert(has_entry(e, c));
                let i = choose|i: int| 0 <= i < e.len() && (#[trigger] e[i]).0 == c;
                assert(ids[i] == c);
            }
            assert forall|i: int| 0 <= i < ids.len() implies self@.contains_key(
                #[trigger] ids[i],
            ) by {
                assert(self@.contains_key(entries@[i].0));
            }
            assert forall|i: int, j: int| 0 <= i < j < ids.len() implies rank(#[trigger] ids[i])
                < rank(#[trigger] ids[j]) by {
                assert(rank(entries@[i].0) < rank(entries@[j].0));
            }
            lemma_ranked_ids_differ(ids);
            lemma_ids_count(ids, self@);
        }
        entries
    }

    /// The path of the file the list belongs to.
    pub fn file(&self) -> (p: &str)
        ensures
            p@ == self.path(),
    {
        self.file.as_str()
    }

    /// How many records the list holds.
    pub fn len(&self) -> (n: usize)
        ensures
            n == self@.len(),
            valid_store(self@),
    {
        proof {
            use_type_invariant(self);
            self.lemma_valid();
        }
        self.items.len()
    }

    /// The ids in use (`used` is true) or the ids still free (`used` is
    /// false), in the order of the alphabet.
    fn ids_where(&self, used: bool) -> (ids: Vec<char>)
        ensures
            lists_ids(ids@, self@, used),
    {
        let mut ids: Vec<char> = Vec::new();
        let mut k: usize = 0;
        while k < ID_COUNT
            invariant
                k <= ID_COUNT,
                forall|i: int|
                    0 <= i < ids.len() ==> is_id(#[trigger] ids[i]) && self@.contains_key(ids[i])
                        == used,
                forall|i: int| 0 <= i < ids.len() ==> rank(#[trigger] ids[i]) < k,
                forall|c: char|
                    is_id(c) && self@.contains_key(c) == used && rank(c) < k
                        ==> #[trigger] ids@.contains(c),
                forall|i: int, j: int|
                    0 <= i < j < ids.len() ==> rank(#[trigger] ids[i]) < rank(#[trigger] ids[j]),
            decreases ID_COUNT - k,
        {
            let c = symbol(k);
            proof {
                lemma_symbol_rank(k as int);
            }
            let ghost before = ids@;
            if self.contains(c) == used {
                ids.push(c);
                assert(ids@[before.len() as int] == c);
            }
            assert forall|d: char|
                is_id(d) && self@.contains_key(d) == used && rank(d) < k + 1
                    implies #[trigger] ids@.contains(d) by {
                lemma_rank_symbol(d);
                if rank(d) < k {
                    assert(before.contains(d));
                    let i = choose|i: int| 0 <= i < before.len() && before[i] == d;
                    assert(ids@[i] == d);
                } else {
                    assert(d == c);
                }
            }
            k = k + 1;
        }
        proof {
            assert forall|c: char|
                is_id(c) && self@.contains_key(c) == used implies #[trigger] ids@.contains(c) by {
                lemma_rank_symbol(c);
            }
        }
        ids
    }

    /// The ids in use, in the order of the alphabet.
    pub fn get_used(&self) -> (used: Vec<char>)
        ensures
            lists_ids(used@, self@, true),
            used@.len() == self@.len(),
    {
        let used = self.ids_where(true);
        proof {
            use_type_invariant(self);
            self.lemma_valid();
            lemma_ranked_ids_differ(used@);
            lemma_ids_count(used@, self@);
        }
        used
    }

    /// The ids still free, in the order of the alphabet.
    pub fn get_free(&self) -> (free: Vec<char>)
        ensures
            lists_ids(free@, self@, false),
    {
        self.ids_where(false)
    }

    /// An id for a new record, drawn at random from those still free; `None`
    /// if none is left.
    pub fn get_next_index(&self) -> (r: Option<char>)
        ensures
            r is None <==> is_full(self@),
            r matches Some(c) ==> is_id(c) && !self@.contains_key(c),
    {
        let free = self.get_free();
        let r = choose_one(&free);
        proof {
            if free@.len() > 0 {
                assert(is_id(free@[0]) && !self@.contains_key(free@[0]));
            } else {
                assert forall|c: char| is_id(c) implies #[trigger] self@.contains_key(c) by {
                    if !self@.contains_key(c) {
                        assert(free@.contains(c));
                    }
                }
            }
        }
        r
    }

    /// Adds a record for `description`, without the white space at its end,
    /// under the id `minted`, made at the time `now`; with no id, nothing is
    /// added.
    pub fn add_with(&mut self, minted: Option<char>, description: &str, now: Timestamp) -> (r:
        Result<char, StoreError>)
        requires
            minted matches Some(c) ==> is_id(c) && !old(self)@.contains_key(c),
        ensures
            final(self).path() == old(self).path(),
            valid_store(final(self)@),
            match minted {
                Some(c) => r == Ok::<char, StoreError>(c) && final(self)@ == old(self)@.insert(
                    c,
                    fresh_item(trimmed(description@), c, now@),
                ),
                None => r == Err::<char, StoreError>(StoreError::Exhausted) && final(self)@ == old(
                    self,
                )@,
            },
    {
        proof {
            use_type_invariant(&*self);
            self.lemma_valid();
        }
        match minted {
            Some(c) => {
                let text = trim_trailing(description);
                let item = TodoItem::new_at(text.as_str(), c, now);
                let mut items = self.take_items();
                items.insert(c as u32, item);
                self.items = items;
                proof {
                    use_type_invariant(&*self);
                    self.lemma_valid();
                    assert(self@ =~= old(self)@.insert(
                        c,
                        fresh_item(trimmed(description@), c, now@),
                    ));
                }
                Ok(c)
            },
            None => Err(StoreError::Exhausted),
        }
    }

    /// Adds a record for `description`, without the white space at its end,
    /// under an id drawn at random from those still free, made now. With
    /// every id in use it fails and leaves the list as it was.
    pub fn add(&mut self, description: &str) -> (r: Result<char, StoreError>)
        ensures
            final(self).path() == old(self).path(),
            valid_store(final(self)@),
            r is Err <==> is_full(old(self)@),
            r matches Err(e) ==> e == StoreError::Exhausted && final(self)@ == old(self)@,
            r matches Ok(c) ==> {
                &&& is_id(c)
                &&& !old(self)@.contains_key(c)
                &&& final(self)@ == old(self)@.insert(c, final(self)@[c])
                &&& final(self)@[c] == fresh_item(trimmed(description@), c, final(self)@[c].created)
                &&& valid_instant(final(self)@[c].created)
            },
    {
        let minted = self.get_next_index();
        let now = Timestamp::now();
        self.add_with(minted, description, now)
    }

    /// Removes the record held under `index` and hands back its description;
    /// `None` if there is no such record.
    pub fn remove(&mut self, index: char) -> (r: Option<String>)
        ensures
            final(self).path() == old(self).path(),
            valid_store(final(self)@),
            final(self)@ == old(self)@.remove(index),
            match r {
                Some(d) => old(self)@.contains_key(index) && d@ == old(self)@[index].description,
                None => !old(self)@.contains_key(index),
            },
    {
        proof {
            use_type_invariant(&*self);
        }
        let k: u32 = index as u32;
        let mut items = self.take_items();
        let r = match items.remove(&k) {
            Some(item) => Some(item.description),
            None => None,
        };
        self.items = items;
        proof {
            use_type_invariant(&*self);
            self.lemma_valid();
            assert(self@ =~= old(self)@.remove(index));
        }
        r
    }

    /// Toggles the completion of the record held under `index` and notes
    /// `now` as the time of its last change. Says whether there is such a
    /// record; if not, nothing changes.
    pub fn done_at(&mut self, index: char, now: Timestamp) -> (found: bool)
        ensures
            final(self).path() == old(self).path(),
            valid_store(final(self)@),
            found == old(self)@.contains_key(index),
            found ==> final(self)@ == old(self)@.insert(index, toggled(old(self)@[index], now@)),
            !found ==> final(self)@ == old(self)@,
    {
        proof {
            use_type_invariant(&*self);
            self.lemma_valid();
        }
        let k: u32 = index as u32;
        let mut items = self.take_items();
        match items.remove(&k) {
            Some(item) => {
                let TodoItem { index: id, description, done, created, updated: _ } = item;
                let changed = TodoItem { index: id, description, done: !done, created, updated: now };
                items.insert(k, changed);
                self.items = items;
                proof {
                    use_type_invariant(&*self);
                    self.lemma_valid();
                    assert(self@ =~= old(self)@.insert(index, toggled(old(self)@[index], now@)));
                }
                true
            },
            None => {
                self.items = items;
                proof {
                    assert(self@ =~= old(self)@);
                }
                false
            },
        }
    }

    /// Toggles the completion of the record held under `index` and notes the
    /// time as that of its last change. Says whether there is such a record;
    /// if not, nothing changes.
    pub fn done(&mut self, index: char) -> (found: bool)
        ensures
            final(self).path() == old(self).path(),
            valid_store(final(self)@),
            found == old(self)@.contains_key(index),
            found ==> final(self)@ == old(self)@.insert(
                index,
                toggled(old(self)@[index], final(self)@[index].updated),
            ) && valid_instant(final(self)@[index].updated),
            !found ==> final(self)@ == old(self)@,
    {
        let now = Timestamp::now();
        self.done_at(index, now)
    }

    /// Whether a record is held under `index`.
    pub fn contains(&self, index: char) -> (r: bool)
        ensures
            r == self@.contains_key(index),
    {
        proof {
            use_type_invariant(self);
        }
        let k: u32 = index as u32;
        self.items.contains_key(&k)
    }

    /// The record held under `index`, if there is one.
    pub fn get(&self, index: char) -> (r: Option<&TodoItem>)
        ensures
            match r {
                Some(item) => self@.contains_key(index) && item@ == self@[index],
                None => !self@.contains_key(index),
            },
    {
        proof {
            use_type_invariant(self);
        }
        let k: u32 = index as u32;
        self.items.get(&k)
    }
}

} // verus!
