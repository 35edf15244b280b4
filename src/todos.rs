//! The record store: tasks keyed by a 32-bit id that a counter hands out in
//! increasing order, kept and traversed in ascending key order.
use crate::codec::{
    chars_of, decode_result, encode_entries, encode_records, lemma_decode_encode, lemma_strip_no_newline,
    parse_record, parse_records, record_result, stripped,
};
use crate::terminal::{reports, TerminalError};
use crate::todo::{view_entries, Todo, TodoV};
use vstd::prelude::*;

verus! {

/// Keys strictly increase along `s`.
pub open spec fn keys_increasing(s: Seq<(u32, TodoV)>) -> bool {
    forall|i: int, j: int| 0 <= i < j < s.len() ==> s[i].0 < s[j].0
}

/// Some entry of `s` has key `k`.
pub open spec fn has_key(s: Seq<(u32, TodoV)>, k: u32) -> bool {
    exists|i: int| 0 <= i < s.len() && s[i].0 == k
}

/// The position of an entry of `s` with key `k`.
pub open spec fn key_index(s: Seq<(u32, TodoV)>, k: u32) -> int {
    choose|i: int| 0 <= i < s.len() && s[i].0 == k
}

/// The map from each key of `s` to its task.
pub open spec fn map_of(s: Seq<(u32, TodoV)>) -> Map<u32, TodoV> {
    Map::new(|k: u32| has_key(s, k), |k: u32| s[key_index(s, k)].1)
}

/// The largest key of an ordered sequence, or 0 when it is empty.
pub open spec fn last_key(s: Seq<(u32, TodoV)>) -> u32 {
    if s.len() == 0 {
        0
    } else {
        s.last().0
    }
}

/// `m` after adding each of `recs` in turn, where a key already present keeps its task.
pub open spec fn merge(m: Map<u32, TodoV>, recs: Seq<(u32, TodoV)>) -> Map<u32, TodoV>
    decreases recs.len(),
{
    if recs.len() == 0 {
        m
    } else {
        let before = merge(m, recs.drop_last());
        if before.contains_key(recs.last().0) {
            before
        } else {
            before.insert(recs.last().0, recs.last().1)
        }
    }
}

/// In an ordered sequence the entry with a given key is the one at `key_index`.
pub proof fn lemma_key_index(s: Seq<(u32, TodoV)>, i: int)
    requires
        keys_increasing(s),
        0 <= i < s.len(),
    ensures
        has_key(s, s[i].0),
        key_index(s, s[i].0) == i,
        map_of(s).contains_key(s[i].0),
        map_of(s)[s[i].0] == s[i].1,
{
    assert(has_key(s, s[i].0));
    let j = key_index(s, s[i].0);
    assert(s[j].0 == s[i].0);
    if j < i || i < j {
        assert(false);
    }
}

/// `map_of(s)` is the map `m` that holds exactly the entries of `s`.
proof fn lemma_map_of_equal(s: Seq<(u32, TodoV)>, m: Map<u32, TodoV>)
    requires
        keys_increasing(s),
        forall|i: int| 0 <= i < s.len() ==> #[trigger] m.contains_key(s[i].0) && m[s[i].0] == s[i].1,
        forall|k: u32| #[trigger] m.contains_key(k) ==> has_key(s, k),
    ensures
        map_of(s) == m,
{
    assert forall|k: u32| #[trigger] map_of(s).contains_key(k) <==> m.contains_key(k) by {
        if map_of(s).contains_key(k) {
            let i = key_index(s, k);
            assert(m.contains_key(s[i].0));
        }
    }
    assert forall|k: u32| #[trigger] map_of(s).contains_key(k) implies map_of(s)[k] == m[k] by {
        let i = key_index(s, k);
        lemma_key_index(s, i);
    }
    assert(map_of(s) =~= m);
}

/// The store of tasks.
pub struct Todos {
    todo_collection: Vec<(u32, Todo)>,
    length: u32,
}

impl Todos {
    /// An empty store whose counter is 0.
    pub fn new() -> (r: Self)
        ensures
            r.wf(),
            r.entries() == Seq::<(u32, TodoV)>::empty(),
            r.next_id() == 0,
    {
        let r = Self { todo_collection: Vec::new(), length: 0 };
        assert(r.entries() =~= Seq::<(u32, TodoV)>::empty());
        r
    }

    /// The counter: the last key that was handed out, or the largest key loaded.
    pub fn length(&self) -> (r: u32)
        ensures
            r == self.next_id(),
    {
        self.length
    }

    /// The position of the entry with key `key`, if there is one.
    fn find_key(&self, key: u32) -> (r: Option<usize>)
        requires
            self.wf(),
        ensures
            r matches Some(i) ==> i < self.entries().len() && key_index(self.entries(), key) == i
                && has_key(self.entries(), key),
            r is None ==> !has_key(self.entries(), key),
    {
        let ghost s = self.entries();
        let mut i: usize = 0;
        while i < self.todo_collection.len()
            invariant
                s == self.entries(),
                self.wf(),
                s == view_entries(self.todo_collection@),
                i <= s.len(),
                forall|j: int| 0 <= j < i ==> s[j].0 != key,
            decreases self.todo_collection.len() - i,
        {
            assert(s[i as int].0 == self.todo_collection@[i as int].0);
            if self.todo_collection[i].0 == key {
                proof {
                    lemma_key_index(s, i as int);
                }
                return Some(i);
            }
            i = i + 1;
        }
        None
    }

    /// Adds `todo` under `key` unless the key is present; the counter is unchanged.
    fn insert_if_absent(&mut self, key: u32, todo: Todo)
        requires
            old(self).wf(),
            key <= old(self).next_id(),
        ensures
            final(self).wf(),
            final(self).next_id() == old(self).next_id(),
            map_of(final(self).entries()) == (if map_of(old(self).entries()).contains_key(key) {
                map_of(old(self).entries())
            } else {
                map_of(old(self).entries()).insert(key, todo@)
            }),
    {
        let ghost s = self.entries();
        let mut i: usize = 0;
        while i < self.todo_collection.len() && self.todo_collection[i].0 < key
            invariant
                s == old(self).entries(),
                *self == *old(self),
                self.wf(),
                s == view_entries(self.todo_collection@),
                i <= s.len(),
                forall|j: int| 0 <= j < i ==> s[j].0 < key,
            decreases self.todo_collection.len() - i,
        {
            assert(s[i as int].0 == self.todo_collection@[i as int].0);
            i = i + 1;
        }
        assert(i < s.len() ==> s[i as int].0 == self.todo_collection@[i as int].0);
        if i < self.todo_collection.len() && self.todo_collection[i].0 == key {
            proof {
                lemma_key_index(s, i as int);
            }
            return;
        }
        self.todo_collection.insert(i, (key, todo));
        let ghost t = self.entries();
        proof {
            assert(t =~= s.insert(i as int, (key, todo@)));
            assert(!has_key(s, key)) by {
                if has_key(s, key) {
                    let j = key_index(s, key);
                    if j >= i {
                        assert(s[i as int].0 <= s[j].0);
                    }
                }
            }
            assert(keys_increasing(t));
            let m = map_of(s).insert(key, todo@);
            assert forall|j: int| 0 <= j < t.len() implies #[trigger] m.contains_key(t[j].0) && m[t[j].0]
                == t[j].1 by {
                if j < i {
                    lemma_key_index(s, j);
                } else if j > i {
                    lemma_key_index(s, j - 1);
                }
            }
            assert forall|k: u32| #[trigger] m.contains_key(k) implies has_key(t, k) by {
                if k != key {
                    let j = key_index(s, k);
                    if j < i {
                        assert(t[j].0 == k);
                    } else {
                        assert(t[j + 1].0 == k);
                    }
                } else {
                    assert(t[i as int].0 == k);
                }
            }
            lemma_map_of_equal(t, m);
        }
    }
}

/// A store of tasks keyed by an increasing counter.
pub trait TodoStorage {
    /// The store's internal invariant.
    spec fn wf(&self) -> bool;

    /// The entries of the store, in ascending key order.
    spec fn entries(&self) -> Seq<(u32, TodoV)>;

    /// The counter that the next insertion increments to make its key.
    spec fn next_id(&self) -> u32;

    /// Stores `todo` under a fresh key, one above the counter, and returns that key.
    fn insert_todo(&mut self, todo: Todo) -> (key: u32)
        requires
            old(self).wf(),
            old(self).next_id() < u32::MAX,
        ensures
            final(self).wf(),
            key == old(self).next_id() + 1,
            final(self).next_id() == key,
            !has_key(old(self).entries(), key),
            final(self).entries() == old(self).entries().push((key, todo@)),
            map_of(final(self).entries()) == map_of(old(self).entries()).insert(key, todo@),
    ;

    /// Replaces the task under `id` with `new_todo` if `id` is present; tells whether it was.
    fn update(&mut self, id: u32, new_todo: Todo) -> (r: bool)
        requires
            old(self).wf(),
        ensures
            final(self).wf(),
            r == has_key(old(self).entries(), id),
            final(self).next_id() == old(self).next_id(),
            r ==> final(self).entries() == old(self).entries().update(
                key_index(old(self).entries(), id),
                (id, new_todo@),
            ),
            !r ==> final(self).entries() == old(self).entries(),
            map_of(final(self).entries()) == (if r {
                map_of(old(self).entries()).insert(id, new_todo@)
            } else {
                map_of(old(self).entries())
            }),
    ;

    /// A copy of the task under `key`, if there is one.
    fn get_one_todo(&self, key: u32) -> (r: Option<Todo>)
        requires
            self.wf(),
        ensures
            r is Some == map_of(self.entries()).contains_key(key),
            r matches Some(t) ==> t@ == map_of(self.entries())[key],
    ;

    /// Removes the entry under `key`; does nothing if there is none.
    fn remove(&mut self, key: u32)
        requires
            old(self).wf(),
        ensures
            final(self).wf(),
            final(self).next_id() == old(self).next_id(),
            has_key(old(self).entries(), key) ==> final(self).entries() == old(self).entries().remove(
                key_index(old(self).entries(), key),
            ),
            !has_key(old(self).entries(), key) ==> final(self).entries() == old(self).entries(),
            map_of(final(self).entries()) == map_of(old(self).entries()).remove(key),
    ;

    /// The number of entries.
    fn is_empty(&self) -> (r: usize)
        requires
            self.wf(),
        ensures
            r == self.entries().len(),
    ;

    /// The entries, in ascending key order.
    fn get_collection(&self) -> (r: &Vec<(u32, Todo)>)
        requires
            self.wf(),
        ensures
            view_entries(r@) == self.entries(),
    ;

    /// Marks the task under `key` as resolved if `key` is present; tells whether it was.
    fn resolve_one_todo(&mut self, key: u32) -> (r: bool)
        requires
            old(self).wf(),
        ensures
            final(self).wf(),
            r == has_key(old(self).entries(), key),
            final(self).next_id() == old(self).next_id(),
            r ==> final(self).entries() == old(self).entries().update(
                key_index(old(self).entries(), key),
                (key, (map_of(old(self).entries())[key].0, true)),
            ),
            !r ==> final(self).entries() == old(self).entries(),
            map_of(final(self).entries()) == (if r {
                map_of(old(self).entries()).insert(key, (map_of(old(self).entries())[key].0, true))
            } else {
                map_of(old(self).entries())
            }),
    ;

    /// Adds the records of `text` in order, each unless its key is present, and sets
    /// the counter to the largest key held. A line that is not a record fails the
    /// whole load and leaves the store as it was.
    fn parse_text_for_todos(&mut self, text: &str) -> (r: Result<(), TerminalError>)
        requires
            old(self).wf(),
        ensures
            final(self).wf(),
            match decode_result(text@) {
                Ok(recs) => {
                    &&& r is Ok
                    &&& map_of(final(self).entries()) == merge(map_of(old(self).entries()), recs)
                    &&& final(self).next_id() == last_key(final(self).entries())
                },
                Err(f) => {
                    &&& r matches Err(e) && reports(e, f)
                    &&& final(self).entries() == old(self).entries()
                    &&& final(self).next_id() == old(self).next_id()
                },
            },
    ;

    /// Reads one line of the stored list as its key, message and flag.
    fn parse_line_for_todo(&self, line: &str) -> (r: Result<(u32, String, bool), TerminalError>)
        ensures
            match record_result(line@) {
                Ok((key, t)) => r matches Ok((k, m, b)) && k == key && m@ == t.0 && b == t.1,
                Err(f) => r matches Err(e) && reports(e, f),
            },
    ;

    /// The text that stores the entries: one line per entry, in key order.
    fn parse_map_to_text(&self) -> (r: String)
        requires
            self.wf(),
        ensures
            r@ == encode_entries(self.entries()),
    ;
}

impl TodoStorage for Todos {
    open spec fn wf(&self) -> bool {
        &&& keys_increasing(self.entries())
        &&& forall|i: int| 0 <= i < self.entries().len() ==> #[trigger] self.entries()[i].0 <= self.next_id()
    }

    closed spec fn entries(&self) -> Seq<(u32, TodoV)> {
        view_entries(self.todo_collection@)
    }

    closed spec fn next_id(&self) -> u32 {
        self.length
    }

    fn insert_todo(&mut self, todo: Todo) -> (key: u32) {
        let ghost s = self.entries();
        self.length = self.length + 1;
        let key = self.length;
        self.todo_collection.push((key, todo));
        proof {
            assert(self.entries() =~= s.push((key, todo@)));
            let m = map_of(s).insert(key, todo@);
            let t = self.entries();
            assert forall|j: int| 0 <= j < t.len() implies #[trigger] m.contains_key(t[j].0) && m[t[j].0]
                == t[j].1 by {
                if j < s.len() {
                    lemma_key_index(s, j);
                }
            }
            assert forall|k: u32| #[trigger] m.contains_key(k) implies has_key(t, k) by {
                if k != key {
                    let j = key_index(s, k);
                    assert(t[j].0 == k);
                } else {
                    assert(t[s.len() as int].0 == k);
                }
            }
            lemma_map_of_equal(t, m);
        }
        key
    }

    fn update(&mut self, id: u32, new_todo: Todo) -> (r: bool) {
        let ghost s = self.entries();
        match self.find_key(id) {
            Some(i) => {
                self.todo_collection.set(i, (id, new_todo));
                proof {
                    let t = self.entries();
                    assert(t =~= s.update(i as int, (id, new_todo@)));
                    let m = map_of(s).insert(id, new_todo@);
                    assert forall|j: int| 0 <= j < t.len() implies #[trigger] m.contains_key(t[j].0)
                        && m[t[j].0] == t[j].1 by {
                        lemma_key_index(s, j);
                    }
                    assert forall|k: u32| #[trigger] m.contains_key(k) implies has_key(t, k) by {
                        if k != id {
                            let j = key_index(s, k);
                            assert(t[j].0 == k);
                        } else {
                            assert(t[i as int].0 == k);
                        }
                    }
                    lemma_map_of_equal(t, m);
                }
                true
            },
            None => false,
        }
    }

    fn get_one_todo(&self, key: u32) -> (r: Option<Todo>) {
        match self.find_key(key) {
            Some(i) => {
                proof {
                    lemma_key_index(self.entries(), i as int);
                }
                Some(self.todo_collection[i].1.clone())
            },
            None => None,
        }
    }

    fn remove(&mut self, key: u32) {
        let ghost s = self.entries();
        match self.find_key(key) {
            Some(i) => {
                self.todo_collection.remove(i);
                proof {
                    let t = self.entries();
                    assert(t =~= s.remove(i as int));
                    let m = map_of(s).remove(key);
                    assert forall|j: int| 0 <= j < t.len() implies #[trigger] m.contains_key(t[j].0)
                        && m[t[j].0] == t[j].1 by {
                        if j < i {
                            lemma_key_index(s, j);
                        } else {
                            lemma_key_index(s, j + 1);
                        }
                    }
                    assert forall|k: u32| #[trigger] m.contains_key(k) implies has_key(t, k) by {
                        let j = key_index(s, k);
                        if j < i {
                            assert(t[j].0 == k);
                        } else {
                            assert(t[j - 1].0 == k);
                        }
                    }
                    lemma_map_of_equal(t, m);
                }
            },
            None => {
                assert(map_of(s).remove(key) =~= map_of(s));
            },
        }
    }

    fn is_empty(&self) -> (r: usize) {
        self.todo_collection.len()
    }

    fn get_collection(&self) -> (r: &Vec<(u32, Todo)>) {
        &self.todo_collection
    }

    fn resolve_one_todo(&mut self, key: u32) -> (r: bool) {
        let ghost s = self.entries();
        match self.find_key(key) {
            Some(i) => {
                proof {
                    lemma_key_index(s, i as int);
                }
                let mut todo = self.todo_collection[i].1.clone();
                todo.resolved = true;
                self.update(key, todo);
                true
            },
            None => false,
        }
    }

    fn parse_text_for_todos(&mut self, text: &str) -> (r: Result<(), TerminalError>) {
        let recs = match parse_records(text) {
            Ok(v) => v,
            Err(f) => return Err(TerminalError::from_fault(f)),
        };
        let ghost rs = view_entries(recs@);
        let ghost m0 = map_of(self.entries());
        let mut i: usize = 0;
        while i < recs.len()
            invariant
                self.wf(),
                i <= recs.len(),
                rs == view_entries(recs@),
                map_of(self.entries()) == merge(m0, rs.take(i as int)),
            decreases recs.len() - i,
        {
            assert(rs.take(i + 1).drop_last() =~= rs.take(i as int));
            let key = recs[i].0;
            let todo = recs[i].1.clone();
            if self.length < key {
                self.length = key;
            }
            self.insert_if_absent(key, todo);
            i = i + 1;
        }
        assert(rs.take(i as int) =~= rs);
        let ghost s = self.entries();
        self.length = if self.todo_collection.len() == 0 {
            0
        } else {
            self.todo_collection[self.todo_collection.len() - 1].0
        };
        assert(self.entries() == s);
        assert forall|j: int| 0 <= j < s.len() implies #[trigger] s[j].0 <= self.next_id() by {
            assert(s.last() == s[s.len() - 1]);
        }
        Ok(())
    }

    fn parse_line_for_todo(&self, line: &str) -> (r: Result<(u32, String, bool), TerminalError>) {
        let chars = chars_of(line);
        match parse_record(&chars) {
            Ok((key, todo)) => Ok((key, todo.message, todo.resolved)),
            Err(f) => Err(TerminalError::from_fault(f)),
        }
    }

    fn parse_map_to_text(&self) -> (r: String) {
        encode_records(&self.todo_collection)
    }
}

/// Adding ordered entries one by one to an empty map gives the map of the entries.
proof fn lemma_merge_into_empty(s: Seq<(u32, TodoV)>)
    requires
        keys_increasing(s),
    ensures
        merge(map_of(Seq::empty()), s) == map_of(s),
    decreases s.len(),
{
    if s.len() == 0 {
        assert(map_of(Seq::<(u32, TodoV)>::empty()) =~= map_of(s));
    } else {
        let init = s.drop_last();
        let last = s.last();
        lemma_merge_into_empty(init);
        assert(!map_of(init).contains_key(last.0)) by {
            if has_key(init, last.0) {
                let j = key_index(init, last.0);
                assert(s[j].0 < s[s.len() - 1].0);
            }
        }
        let m = map_of(init).insert(last.0, last.1);
        assert forall|j: int| 0 <= j < s.len() implies #[trigger] m.contains_key(s[j].0) && m[s[j].0]
            == s[j].1 by {
            if j < init.len() {
                lemma_key_index(init, j);
                assert(s[j].0 < last.0);
            }
        }
        assert forall|k: u32| #[trigger] m.contains_key(k) implies has_key(s, k) by {
            if k != last.0 {
                let j = key_index(init, k);
                assert(s[j].0 == k);
            } else {
                assert(s[s.len() - 1].0 == k);
            }
        }
        lemma_map_of_equal(s, m);
    }
}

/// Writing a store as text and reading that text into an empty store gives back
/// the same entries, when no message holds a newline.
pub proof fn lemma_round_trip(store: Todos)
    requires
        store.wf(),
        forall|i: int| 0 <= i < store.entries().len() ==> !(#[trigger] store.entries()[i]).1.0.contains('\n'),
    ensures
        decode_result(encode_entries(store.entries())) == Ok::<Seq<(u32, TodoV)>, crate::codec::LineFault>(
            store.entries(),
        ),
        merge(map_of(Seq::empty()), store.entries()) == map_of(store.entries()),
{
    let s = store.entries();
    lemma_decode_encode(s);
    assert forall|i: int| 0 <= i < s.len() implies #[trigger] stripped(s)[i] == s[i] by {
        lemma_strip_no_newline(s[i].1.0);
    }
    assert(stripped(s) =~= s);
    lemma_merge_into_empty(s);
}

/// Loading an empty text (what a missing file stands for) into an empty store: the
/// text holds no record, and a store whose entries make the map that this load
/// leaves has no entry, so its counter, the largest key it holds, is 0.
pub proof fn lemma_decode_empty(s: Seq<(u32, TodoV)>)
    requires
        map_of(s) == merge(map_of(Seq::empty()), Seq::empty()),
    ensures
        decode_result(Seq::empty()) == Ok::<Seq<(u32, TodoV)>, crate::codec::LineFault>(Seq::empty()),
        s.len() == 0,
        last_key(s) == 0,
{
    lemma_decode_encode(Seq::empty());
    assert(stripped(Seq::empty()) =~= Seq::<(u32, TodoV)>::empty());
    assert(encode_entries(Seq::empty()) =~= Seq::<char>::empty());
    if s.len() > 0 {
        assert(has_key(s, s[0].0));
        assert(map_of(s).contains_key(s[0].0));
    }
}

/// Resolving an entry that is already resolved leaves the entries as they were.
pub proof fn lemma_resolve_idempotent(s: Seq<(u32, TodoV)>, key: u32)
    requires
        keys_increasing(s),
        has_key(s, key),
        map_of(s)[key].1,
    ensures
        s.update(key_index(s, key), (key, (map_of(s)[key].0, true))) == s,
{
    let i = key_index(s, key);
    lemma_key_index(s, i);
    assert(s.update(i, (key, (map_of(s)[key].0, true))) =~= s);
}

} // verus!
