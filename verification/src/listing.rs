//! Lists of named collections, and the mapping that such a list stands
//! for. A store keeps its collections in such a list, and bytes that hold a
//! store hold one.

use crate::db::all_well_formed;
use crate::db::CollectionView;
use vstd::prelude::*;

verus! {

/// A collection and the name it goes by.
pub struct Named {
    pub name: Seq<char>,
    pub collection: CollectionView,
}

/// Whether a name is in a list of named collections.
pub open spec fn holds(entries: Seq<Named>, name: Seq<char>) -> bool {
    exists|i: int| 0 <= i < entries.len() && (#[trigger] entries[i]).name == name
}

/// A place at which a list of named collections has the name.
pub open spec fn slot(entries: Seq<Named>, name: Seq<char>) -> int {
    choose|i: int| 0 <= i < entries.len() && (#[trigger] entries[i]).name == name
}

/// No name occurs twice.
pub open spec fn names_distinct(entries: Seq<Named>) -> bool {
    forall|i: int, j: int|
        0 <= i < j < entries.len() ==> (#[trigger] entries[i]).name != (#[trigger] entries[j]).name
}

/// The mapping that a list of named collections stands for.
pub open spec fn store_of(entries: Seq<Named>) -> Map<Seq<char>, CollectionView> {
    Map::new(
        |name: Seq<char>| holds(entries, name),
        |name: Seq<char>| entries[slot(entries, name)].collection,
    )
}

/// With no name twice, each entry is found under its name, at its place.
pub proof fn lemma_store_at(entries: Seq<Named>, i: int)
    requires
        names_distinct(entries),
        0 <= i < entries.len(),
    ensures
        holds(entries, entries[i].name),
        slot(entries, entries[i].name) == i,
        store_of(entries).contains_key(entries[i].name),
        store_of(entries)[entries[i].name] == entries[i].collection,
{
    assert(holds(entries, entries[i].name));
}

/// An entry with a new name, added at the end, adds its name to the mapping.
pub proof fn lemma_store_after_push(entries: Seq<Named>, next: Named)
    requires
        names_distinct(entries),
        !holds(entries, next.name),
    ensures
        names_distinct(entries.push(next)),
        store_of(entries.push(next)) == store_of(entries).insert(next.name, next.collection),
{
    let grown = entries.push(next);
    assert(names_distinct(grown)) by {
        assert forall|i: int, j: int| 0 <= i < j < grown.len() implies (#[trigger] grown[i]).name != (
        #[trigger] grown[j]).name by {
            if j == entries.len() {
                assert(entries[i].name != next.name);
            } else {
                assert(entries[i].name != entries[j].name);
            }
        }
    }
    assert forall|key: Seq<char>| #[trigger]
        store_of(grown).contains_key(key) == store_of(entries).insert(next.name, next.collection).contains_key(key) by {
        if holds(grown, key) {
            let i = slot(grown, key);
            if i < entries.len() {
                assert(entries[i].name == key);
            }
        }
        if holds(entries, key) {
            let i = slot(entries, key);
            assert(grown[i].name == key);
        }
        if key == next.name {
            assert(grown[entries.len() as int].name == key);
        }
    }
    assert forall|key: Seq<char>| #[trigger] store_of(grown).contains_key(key) implies store_of(
        grown,
    )[key] == store_of(entries).insert(next.name, next.collection)[key] by {
        let i = slot(grown, key);
        lemma_store_at(grown, i);
        if i < entries.len() {
            lemma_store_at(entries, i);
        }
    }
    assert(store_of(grown) =~= store_of(entries).insert(next.name, next.collection));
}

/// Taking an entry out takes its name from the mapping.
pub proof fn lemma_store_after_remove(entries: Seq<Named>, at: int)
    requires
        names_distinct(entries),
        0 <= at < entries.len(),
    ensures
        names_distinct(entries.remove(at)),
        store_of(entries.remove(at)) == store_of(entries).remove(entries[at].name),
{
    let rest = entries.remove(at);
    let name = entries[at].name;
    assert forall|i: int| 0 <= i < rest.len() implies #[trigger] rest[i] == entries[if i < at {
        i
    } else {
        i + 1
    }] by {}
    assert(names_distinct(rest)) by {
        assert forall|i: int, j: int| 0 <= i < j < rest.len() implies (#[trigger] rest[i]).name != (
        #[trigger] rest[j]).name by {
            let a = if i < at {
                i
            } else {
                i + 1
            };
            let b = if j < at {
                j
            } else {
                j + 1
            };
            assert(entries[a].name != entries[b].name);
        }
    }
    assert forall|key: Seq<char>| #[trigger]
        store_of(rest).contains_key(key) == store_of(entries).remove(name).contains_key(key) by {
        if holds(rest, key) {
            let i = slot(rest, key);
            let a = if i < at {
                i
            } else {
                i + 1
            };
            assert(entries[a].name == key);
            if key == name {
                assert(entries[a].name != entries[at].name);
            }
        }
        if holds(entries, key) && key != name {
            let a = slot(entries, key);
            let i = if a < at {
                a
            } else {
                a - 1
            };
            assert(rest[i].name == key);
        }
    }
    assert forall|key: Seq<char>| #[trigger] store_of(rest).contains_key(key) implies store_of(
        rest,
    )[key] == store_of(entries).remove(name)[key] by {
        let i = slot(rest, key);
        lemma_store_at(rest, i);
        let a = if i < at {
            i
        } else {
            i + 1
        };
        lemma_store_at(entries, a);
    }
    assert(store_of(rest) =~= store_of(entries).remove(name));
}

/// Replacing an entry by one of the same name replaces what the name maps
/// to.
pub proof fn lemma_store_after_update(
    entries: Seq<Named>,
    at: int,
    changed: Named,
)
    requires
        names_distinct(entries),
        0 <= at < entries.len(),
        changed.name == entries[at].name,
    ensures
        names_distinct(entries.update(at, changed)),
        store_of(entries.update(at, changed)) == store_of(entries).insert(
            changed.name,
            changed.collection,
        ),
{
    let after = entries.update(at, changed);
    assert(names_distinct(after)) by {
        assert forall|i: int, j: int| 0 <= i < j < after.len() implies (#[trigger] after[i]).name != (
        #[trigger] after[j]).name by {
            assert(entries[i].name != entries[j].name);
        }
    }
    assert forall|key: Seq<char>| #[trigger]
        store_of(after).contains_key(key) == store_of(entries).insert(
            changed.name,
            changed.collection,
        ).contains_key(key) by {
        if holds(after, key) {
            let i = slot(after, key);
            assert(entries[i].name == key);
        }
        if holds(entries, key) {
            let i = slot(entries, key);
            assert(after[i].name == key);
        }
        if key == changed.name {
            assert(after[at].name == key);
        }
    }
    assert forall|key: Seq<char>| #[trigger] store_of(after).contains_key(key) implies store_of(
        after,
    )[key] == store_of(entries).insert(changed.name, changed.collection)[key] by {
        let i = slot(after, key);
        lemma_store_at(after, i);
        lemma_store_at(entries, i);
        if i != at {
            assert(entries[i].name != entries[at].name);
        }
    }
    assert(store_of(after) =~= store_of(entries).insert(changed.name, changed.collection));
}

/// Where no name occurs twice and every entry keeps the invariant of a
/// collection, so does every collection of the mapping.
pub proof fn lemma_store_is_well_formed(entries: Seq<Named>)
    requires
        names_distinct(entries),
        forall|i: int| 0 <= i < entries.len() ==> (#[trigger] entries[i]).collection.well_formed(),
    ensures
        all_well_formed(store_of(entries)),
{
    assert forall|name: Seq<char>| store_of(entries).contains_key(name) implies (
    #[trigger] store_of(entries)[name]).well_formed() by {
        let i = slot(entries, name);
        lemma_store_at(entries, i);
    }
}

} // verus!
