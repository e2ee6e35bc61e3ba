//! A small table of byte-counter pairs keyed by name, updated the way a hash
//! map is: a second insert under a name replaces the first.
use vstd::prelude::*;

verus! {

/// A table as a sequence of (name, first counter, second counter), each name
/// at most once.
pub type Table = Seq<(Seq<char>, u64, u64)>;

/// The table held by a vector of entries.
pub open spec fn table_view(entries: Seq<(String, u64, u64)>) -> Table {
    entries.map_values(|e: (String, u64, u64)| (e.0@, e.1, e.2))
}

/// Index of the first entry of `t` named `name`, or `t.len()`.
pub open spec fn slot<A, B>(t: Seq<(Seq<char>, A, B)>, name: Seq<char>) -> nat
    decreases t.len(),
{
    if t.len() == 0 {
        0
    } else if t[0].0 == name {
        0
    } else {
        1 + slot(t.drop_first(), name)
    }
}

/// The counters stored under `name`, if any.
pub open spec fn get(t: Table, name: Seq<char>) -> Option<(u64, u64)> {
    let j = slot(t, name) as int;
    if j < t.len() {
        Some((t[j].1, t[j].2))
    } else {
        None
    }
}

/// `t` with the counters under `name` set to `(a, b)`: an existing entry is
/// replaced in place, a new name goes at the end.
pub open spec fn put(t: Table, name: Seq<char>, a: u64, b: u64) -> Table {
    let j = slot(t, name) as int;
    if j < t.len() {
        t.update(j, (name, a, b))
    } else {
        t.push((name, a, b))
    }
}

/// No name occurs twice.
pub open spec fn distinct_names(t: Table) -> bool {
    forall|i: int, j: int| 0 <= i < j < t.len() ==> t[i].0 != t[j].0
}

pub proof fn lemma_slot<A, B>(t: Seq<(Seq<char>, A, B)>, name: Seq<char>, i: int)
    requires
        0 <= i <= t.len(),
        forall|j: int| 0 <= j < i ==> t[j].0 != name,
        i == t.len() || t[i].0 == name,
    ensures
        slot(t, name) == i,
    decreases t.len(),
{
    if t.len() > 0 && i > 0 {
        let rest = t.drop_first();
        assert forall|j: int| 0 <= j < i - 1 implies rest[j].0 != name by {
            assert(rest[j] == t[j + 1]);
        }
        if i < t.len() {
            assert(rest[i - 1] == t[i]);
        }
        lemma_slot::<A, B>(rest, name, i - 1);
    }
}

pub proof fn lemma_slot_bounds<A, B>(t: Seq<(Seq<char>, A, B)>, name: Seq<char>)
    ensures
        slot(t, name) <= t.len(),
        forall|j: int| 0 <= j < slot(t, name) ==> t[j].0 != name,
        slot(t, name) < t.len() ==> t[slot(t, name) as int].0 == name,
    decreases t.len(),
{
    if t.len() > 0 && t[0].0 != name {
        let rest = t.drop_first();
        lemma_slot_bounds::<A, B>(rest, name);
        assert forall|j: int| 0 <= j < slot(t, name) implies t[j].0 != name by {
            if j > 0 {
                assert(t[j] == rest[j - 1]);
            }
        }
    }
}

/// Storing counters under a name makes them what is read back for that name,
/// and leaves every other name as it was.
pub proof fn lemma_put_get(t: Table, name: Seq<char>, a: u64, b: u64, other: Seq<char>)
    ensures
        get(put(t, name, a, b), name) == Some((a, b)),
        other != name ==> get(put(t, name, a, b), other) == get(t, other),
{
    let j = slot(t, name) as int;
    lemma_slot_bounds(t, name);
    let t2 = put(t, name, a, b);
    lemma_slot(t2, name, j);
    if other != name {
        let k = slot(t, other) as int;
        lemma_slot_bounds(t, other);
        if k == t.len() {
            lemma_slot(t2, other, t2.len() as int);
        } else {
            lemma_slot(t2, other, k);
        }
    }
}

/// Storing keeps the names distinct.
pub proof fn lemma_put_distinct(t: Table, name: Seq<char>, a: u64, b: u64)
    requires
        distinct_names(t),
    ensures
        distinct_names(put(t, name, a, b)),
{
    lemma_slot_bounds(t, name);
}

/// The position of `name` in `entries`, or their length.
pub fn find_slot(entries: &Vec<(String, u64, u64)>, name: &String) -> (j: usize)
    ensures
        j == slot(table_view(entries@), name@),
{
    let ghost t = table_view(entries@);
    let n = entries.len();
    let mut j: usize = 0;
    while j < n && entries[j].0 != *name
        invariant
            n == entries@.len(),
            t == table_view(entries@),
            j <= n,
            forall|k: int| 0 <= k < j ==> t[k].0 != name@,
        decreases n - j,
    {
        j = j + 1;
    }
    proof {
        lemma_slot(t, name@, j as int);
    }
    j
}

/// Stores `(a, b)` under `name`.
pub fn put_entry(entries: &mut Vec<(String, u64, u64)>, name: &String, a: u64, b: u64)
    ensures
        table_view(final(entries)@) == put(table_view(old(entries)@), name@, a, b),
{
    let j = find_slot(entries, name);
    proof {
        lemma_slot_bounds(table_view(entries@), name@);
    }
    let key = name.clone();
    if j < entries.len() {
        entries.set(j, (key, a, b));
    } else {
        entries.push((key, a, b));
    }
    assert(table_view(entries@) =~= put(table_view(old(entries)@), name@, a, b));
}

/// The counters stored under `name`, if any.
pub fn get_entry(entries: &Vec<(String, u64, u64)>, name: &String) -> (r: Option<(u64, u64)>)
    ensures
        r == get(table_view(entries@), name@),
{
    let j = find_slot(entries, name);
    proof {
        lemma_slot_bounds(table_view(entries@), name@);
    }
    if j < entries.len() {
        Some((entries[j].1, entries[j].2))
    } else {
        None
    }
}

} // verus!
