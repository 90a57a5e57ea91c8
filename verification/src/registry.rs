//! The name registry: an append-only interning table that gives each
//! distinct string a dense numeric id, in first-seen order.

use crate::id_map::{id_map_entries, IdMap};
use vstd::prelude::*;

verus! {

/// Number of names that a fresh registry has room for before it grows.
pub const NAME_REGISTRY_CAP: usize = 1000;

/// The table after `name` was interned: unchanged if the table holds the
/// name, else with the name appended.
pub open spec fn interned(table: Seq<Seq<char>>, name: Seq<char>) -> Seq<Seq<char>> {
    if table.contains(name) {
        table
    } else {
        table.push(name)
    }
}

/// The table after each of `names` was interned in turn.
pub open spec fn intern_all(table: Seq<Seq<char>>, names: Seq<Seq<char>>) -> Seq<Seq<char>>
    decreases names.len(),
{
    if names.len() == 0 {
        table
    } else {
        interned(intern_all(table, names.drop_last()), names.last())
    }
}

/// The id that the `i`-th call returns when `names` are interned in turn,
/// starting with an empty registry.
pub open spec fn assigned_id(names: Seq<Seq<char>>, i: int) -> int {
    intern_all(Seq::empty(), names.take(i + 1)).index_of(names[i])
}

/// Some call returns `id` when `names` are interned in turn, starting with
/// an empty registry.
pub open spec fn id_in_use(names: Seq<Seq<char>>, id: int) -> bool {
    exists|i: int| 0 <= i < names.len() && #[trigger] assigned_id(names, i) == id
}

/// The characters of each string of `names`.
pub open spec fn names_of(names: Seq<String>) -> Seq<Seq<char>> {
    names.map_values(|name: String| name@)
}

/// Strings and their ids, each direction in a structure of its own, kept in
/// step: the id of a name is its position in `name_by_id`.
pub struct NameRegistry {
    id_by_name: IdMap,
    name_by_id: Vec<String>,
}

impl View for NameRegistry {
    type V = Seq<Seq<char>>;

    /// The interned names, in id order.
    closed spec fn view(&self) -> Seq<Seq<char>> {
        names_of(self.name_by_id@)
    }
}

impl NameRegistry {
    /// The two directions agree: every name is stored under its position,
    /// and every stored id is the position of its name.
    pub closed spec fn wf(&self) -> bool {
        let ids = id_map_entries(self.id_by_name);
        let names = names_of(self.name_by_id@);
        &&& forall|i: int|
            0 <= i < names.len() ==> ids.contains_key(#[trigger] names[i]) && ids[names[i]] == i
        &&& forall|name: Seq<char>| #[trigger]
            ids.contains_key(name) ==> 0 <= ids[name] < names.len() && names[ids[name] as int]
                == name
    }

    /// No name is interned twice.
    pub proof fn lemma_distinct(&self)
        requires
            self.wf(),
        ensures
            self@.no_duplicates(),
    {
        let ids = id_map_entries(self.id_by_name);
        let names = names_of(self.name_by_id@);
        assert forall|i: int, j: int|
            0 <= i < names.len() && 0 <= j < names.len() && i != j implies names[i]
            != names[j] by {
            assert(ids[names[i]] == i);
            assert(ids[names[j]] == j);
        }
    }

    /// An empty registry.
    pub fn new() -> (registry: NameRegistry)
        ensures
            registry.wf(),
            registry@ == Seq::<Seq<char>>::empty(),
    {
        NameRegistry {
            id_by_name: IdMap::with_capacity(NAME_REGISTRY_CAP),
            name_by_id: Vec::with_capacity(NAME_REGISTRY_CAP),
        }
    }

    /// The interned names, in id order.
    pub fn names(&self) -> (names: &Vec<String>)
        ensures
            names_of(names@) == self@,
    {
        &self.name_by_id
    }

    /// The id of `name`, which is added to the registry under the next free
    /// id if it is not there yet. Ids are 32 bits wide: a registry that has
    /// handed out all of them takes no new name.
    pub fn intern(&mut self, name: &str) -> (id: u32)
        requires
            old(self).wf(),
            old(self)@.contains(name@) || old(self)@.len() <= u32::MAX,
        ensures
            final(self).wf(),
            final(self)@ == interned(old(self)@, name@),
            id == final(self)@.index_of(name@),
            0 <= id < final(self)@.len(),
            final(self)@[id as int] == name@,
    {
        proof {
            self.lemma_distinct();
        }
        match self.id_by_name.get(name) {
            Some(id) => {
                proof {
                    lemma_index_of_position(self@, id as int);
                }
                id
            },
            None => {
                let id = self.name_by_id.len() as u32;
                self.id_by_name.insert(name.to_owned(), id);
                self.name_by_id.push(name.to_owned());
                proof {
                    let before = names_of(old(self).name_by_id@);
                    let after = names_of(self.name_by_id@);
                    let ids = id_map_entries(self.id_by_name);
                    assert(after =~= before.push(name@));
                    assert(!before.contains(name@)) by {
                        if before.contains(name@) {
                            let i = choose|i: int| 0 <= i < before.len() && before[i] == name@;
                            assert(id_map_entries(old(self).id_by_name).contains_key(before[i]));
                        }
                    }
                    assert forall|i: int| 0 <= i < after.len() implies ids.contains_key(
                        #[trigger] after[i],
                    ) && ids[after[i]] == i by {
                        if i < before.len() {
                            assert(after[i] == before[i]);
                        }
                    }
                    assert(self.wf());
                    self.lemma_distinct();
                    lemma_index_of_position(self@, id as int);
                }
                id
            },
        }
    }
}

/// In a table without repeated names, the name at a position is found at
/// that position.
pub proof fn lemma_index_of_position(table: Seq<Seq<char>>, position: int)
    requires
        table.no_duplicates(),
        0 <= position < table.len(),
    ensures
        table.index_of(table[position]) == position,
{
    assert(table.contains(table[position]));
}

/// Interning keeps a table free of repeated names.
pub proof fn lemma_interned_distinct(table: Seq<Seq<char>>, name: Seq<char>)
    requires
        table.no_duplicates(),
    ensures
        interned(table, name).no_duplicates(),
{
}

/// Interning a sequence of names keeps a table free of repeated names.
pub proof fn lemma_intern_all_distinct(table: Seq<Seq<char>>, names: Seq<Seq<char>>)
    requires
        table.no_duplicates(),
    ensures
        intern_all(table, names).no_duplicates(),
    decreases names.len(),
{
    if names.len() > 0 {
        lemma_intern_all_distinct(table, names.drop_last());
        lemma_interned_distinct(intern_all(table, names.drop_last()), names.last());
    }
}

/// Interning only appends: the table after the first `n` names is a prefix
/// of the table after all of them.
pub proof fn lemma_intern_all_prefix(table: Seq<Seq<char>>, names: Seq<Seq<char>>, n: int)
    requires
        0 <= n <= names.len(),
    ensures
        intern_all(table, names.take(n)).is_prefix_of(intern_all(table, names)),
    decreases names.len(),
{
    if n == names.len() {
        assert(names.take(n) =~= names);
    } else {
        lemma_intern_all_prefix(table, names.drop_last(), n);
        assert(names.drop_last().take(n) =~= names.take(n));
    }
}

/// The registry is append-only: interning leaves every name where it is.
pub proof fn lemma_intern_all_extends(table: Seq<Seq<char>>, names: Seq<Seq<char>>)
    ensures
        table.is_prefix_of(intern_all(table, names)),
{
    lemma_intern_all_prefix(table, names, 0);
    assert(names.take(0) =~= Seq::<Seq<char>>::empty());
}

/// In a table without repeated names, a name that a prefix holds has the
/// same position in the prefix and in the table.
pub proof fn lemma_prefix_index(short: Seq<Seq<char>>, long: Seq<Seq<char>>, name: Seq<char>)
    requires
        short.is_prefix_of(long),
        long.no_duplicates(),
        short.contains(name),
    ensures
        short.index_of(name) == long.index_of(name),
        0 <= long.index_of(name) < short.len(),
        long[long.index_of(name)] == name,
{
    let i = short.index_of(name);
    assert(long[i] == short[i]);
    assert(long.contains(name));
}

/// Interning never removes a name, and adds at most one name for each
/// name interned.
pub proof fn lemma_intern_all_len(table: Seq<Seq<char>>, names: Seq<Seq<char>>)
    ensures
        table.len() <= intern_all(table, names).len() <= table.len() + names.len(),
    decreases names.len(),
{
    if names.len() > 0 {
        lemma_intern_all_len(table, names.drop_last());
    }
}

/// Every interned name is in the table.
pub proof fn lemma_intern_all_holds(table: Seq<Seq<char>>, names: Seq<Seq<char>>, i: int)
    requires
        0 <= i < names.len(),
    ensures
        intern_all(table, names).contains(names[i]),
        intern_all(table, names.take(i + 1)).contains(names[i]),
{
    let part = intern_all(table, names.take(i + 1));
    assert(names.take(i + 1).last() == names[i]);
    let before = intern_all(table, names.take(i + 1).drop_last());
    if before.contains(names[i]) {
    } else {
        assert(part[before.len() as int] == names[i]);
    }
    lemma_intern_all_prefix(table, names, i + 1);
    let at = part.index_of(names[i]);
    assert(intern_all(table, names)[at] == names[i]);
}

/// A name keeps its id: once `name` is interned, interning any further
/// names and then `name` again changes nothing and gives the same id.
pub proof fn lemma_intern_repeat(table: Seq<Seq<char>>, name: Seq<char>, later: Seq<Seq<char>>)
    requires
        table.no_duplicates(),
    ensures
        interned(intern_all(interned(table, name), later), name) == intern_all(
            interned(table, name),
            later,
        ),
        intern_all(interned(table, name), later).index_of(name) == interned(table, name).index_of(
            name,
        ),
{
    let first = interned(table, name);
    let last = intern_all(first, later);
    if !table.contains(name) {
        assert(first[table.len() as int] == name);
    }
    lemma_interned_distinct(table, name);
    lemma_intern_all_distinct(first, later);
    lemma_intern_all_extends(first, later);
    lemma_prefix_index(first, last, name);
}

/// Ids are stable and dense: however names are interned into an empty
/// registry, each call returns the position of its name in the final table,
/// equal names get equal ids and different names different ids, and the ids
/// that were handed out are exactly `0`, `1`, ... up to the size of the
/// table, without a gap.
pub proof fn lemma_assigned_ids(names: Seq<Seq<char>>)
    ensures
        intern_all(Seq::empty(), names).no_duplicates(),
        forall|i: int|
            0 <= i < names.len() ==> 0 <= #[trigger] assigned_id(names, i) < intern_all(
                Seq::empty(),
                names,
            ).len(),
        forall|i: int|
            0 <= i < names.len() ==> intern_all(Seq::empty(), names)[#[trigger] assigned_id(
                names,
                i,
            )] == names[i],
        forall|i: int, j: int|
            0 <= i < names.len() && 0 <= j < names.len() ==> (names[i] == names[j]
                <==> #[trigger] assigned_id(names, i) == #[trigger] assigned_id(names, j)),
        forall|id: int|
            0 <= id < intern_all(Seq::empty(), names).len() ==> #[trigger] id_in_use(names, id),
    decreases names.len(),
{
    let table = intern_all(Seq::empty(), names);
    lemma_intern_all_distinct(Seq::empty(), names);
    assert forall|i: int| 0 <= i < names.len() implies 0 <= #[trigger] assigned_id(names, i)
        < table.len() && table[assigned_id(names, i)] == names[i] by {
        lemma_intern_all_holds(Seq::empty(), names, i);
        lemma_intern_all_prefix(Seq::empty(), names, i + 1);
        lemma_prefix_index(intern_all(Seq::empty(), names.take(i + 1)), table, names[i]);
    }
    if names.len() > 0 {
        let head = names.drop_last();
        let n = names.len() - 1;
        lemma_assigned_ids(head);
        assert forall|i: int| 0 <= i < n implies assigned_id(head, i) == #[trigger] assigned_id(
            names,
            i,
        ) by {
            assert(head.take(i + 1) =~= names.take(i + 1));
        }
        assert forall|id: int| 0 <= id < table.len() implies #[trigger] id_in_use(names, id) by {
            if id < intern_all(Seq::empty(), head).len() {
                assert(id_in_use(head, id));
                let i = choose|i: int| 0 <= i < head.len() && #[trigger] assigned_id(head, i) == id;
                assert(assigned_id(names, i) == id);
            } else {
                assert(table[id] == names[n]);
                assert(assigned_id(names, n) == id);
            }
        }
    }
}

/// Names that are all different get their ids in the order of the calls:
/// whichever order the callers come in, the `i`-th call returns `i`, so
/// that `n` callers share the ids `0` to `n - 1` among them.
pub proof fn lemma_distinct_names_ids(names: Seq<Seq<char>>)
    requires
        names.no_duplicates(),
    ensures
        intern_all(Seq::empty(), names) == names,
        forall|i: int| 0 <= i < names.len() ==> #[trigger] assigned_id(names, i) == i,
    decreases names.len(),
{
    if names.len() > 0 {
        let head = names.drop_last();
        lemma_distinct_names_ids(head);
        assert(!head.contains(names.last()));
        assert(intern_all(Seq::empty(), names) =~= names);
    }
    assert forall|i: int| 0 <= i < names.len() implies #[trigger] assigned_id(names, i) == i by {
        let part = names.take(i + 1);
        lemma_distinct_names_take(names, i + 1);
        assert(intern_all(Seq::empty(), part) == part);
        assert(part[i] == names[i]);
    }
}

/// A prefix of names that are all different is interned as it stands.
proof fn lemma_distinct_names_take(names: Seq<Seq<char>>, n: int)
    requires
        names.no_duplicates(),
        0 <= n <= names.len(),
    ensures
        intern_all(Seq::empty(), names.take(n)) == names.take(n),
        names.take(n).no_duplicates(),
    decreases n,
{
    if n > 0 {
        lemma_distinct_names_take(names, n - 1);
        assert(names.take(n).drop_last() =~= names.take(n - 1));
        assert(!names.take(n - 1).contains(names[n - 1]));
        assert(intern_all(Seq::empty(), names.take(n)) =~= names.take(n));
    }
}

} // verus!
