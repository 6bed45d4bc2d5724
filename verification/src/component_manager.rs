use std::any::TypeId;
use std::hash::Hash;
use vstd::prelude::*;

use crate::component_storage::{erase, erase_all, lemma_erase_insert, lemma_erase_remove, AnyComponentStorage, ComponentStorage, ErasedValue};
use crate::boundary::{downcast_storage, downcast_storage_mut, new_entry, same_key, type_key};

verus! {

/// One storage, filed under the type key of its components.
#[verifier::reject_recursive_types(Id)]
pub struct StoreEntry<Id> {
    pub key: TypeId,
    pub store: Box<dyn AnyComponentStorage<Id>>,
}

/// Which entities each filed storage holds, by type key. Where two entries
/// share a key the view is unspecified; `keys_unique` rules that out.
pub open spec fn entries_view<Id>(s: Seq<StoreEntry<Id>>) -> Map<TypeId, Set<Id>> {
    Map::new(
        |k: TypeId| exists|i: int| 0 <= i < s.len() && s[i].key == k,
        |k: TypeId| s[choose|i: int| 0 <= i < s.len() && s[i].key == k].store.stored_ids(),
    )
}

pub open spec fn keys_unique<Id>(s: Seq<StoreEntry<Id>>) -> bool {
    forall|i: int, j: int| 0 <= i < s.len() && 0 <= j < s.len() && i != j ==> s[i].key != s[j].key
}

pub open spec fn entries_valid<Id>(s: Seq<StoreEntry<Id>>) -> bool {
    forall|i: int| 0 <= i < s.len() ==> (#[trigger] s[i]).store.storage_valid()
}

/// The entities that have a component of every type in `keys`; none when
/// `keys` is empty or names a type with no storage.
pub open spec fn matching<Id>(m: Map<TypeId, Set<Id>>, keys: Seq<TypeId>) -> Set<Id> {
    if keys.len() > 0 && forall|j: int| 0 <= j < keys.len() ==> m.contains_key(#[trigger] keys[j]) {
        Set::new(|id: Id| in_all(m, keys, id))
    } else {
        Set::empty()
    }
}

/// Whether `entity` is in the set filed under `key`.
pub open spec fn holds<Id>(m: Map<TypeId, Set<Id>>, key: TypeId, entity: Id) -> bool {
    m.contains_key(key) && m[key].contains(entity)
}

/// What giving `entity` the component `component`, filed under `key`, may
/// do: add `entity` under `key` (creating the set if needed) and hand back
/// nothing; or, should the storage under `key` hold another type, change
/// nothing and hand `component` back.
pub open spec fn insert_outcome<Id, C>(
    before: Map<TypeId, Set<Id>>,
    after: Map<TypeId, Set<Id>>,
    key: TypeId,
    entity: Id,
    component: C,
    r: Option<C>,
) -> bool {
    if !before.contains_key(key) {
        after == before.insert(key, set![entity]) && r is None
    } else {
        ||| {
            &&& after == before.insert(key, before[key].insert(entity))
            &&& r is None
        }
        ||| {
            &&& after == before
            &&& r == Some(component)
        }
    }
}

/// What taking `entity`'s component filed under `key` away may do: nothing
/// when it has none; otherwise drop `entity` from that set and hand the
/// component back, or, should the storage under `key` hold another type,
/// change nothing and hand back nothing.
pub open spec fn remove_outcome<Id, C>(
    before: Map<TypeId, Set<Id>>,
    after: Map<TypeId, Set<Id>>,
    key: TypeId,
    entity: Id,
    r: Option<C>,
) -> bool {
    if !holds(before, key, entity) {
        after == before && r is None
    } else {
        ||| {
            &&& after == before.insert(key, before[key].remove(entity))
            &&& r is Some
        }
        ||| {
            &&& after == before
            &&& r is None
        }
    }
}

/// The components with their types hidden, as a manager reports them: for
/// each type key with a storage, each holding entity's component.
pub type ValueMap<Id> = Map<TypeId, Map<Id, ErasedValue>>;

/// `vals` reports `c` as `entity`'s component filed under `key`.
pub open spec fn reports<Id, C: 'static>(vals: ValueMap<Id>, key: TypeId, entity: Id, c: C) -> bool {
    &&& vals.contains_key(key)
    &&& vals[key].contains_key(entity)
    &&& vals[key][entity] == erase(c)
}

/// The components `vals` reports under `key`, or none if it has no storage
/// there.
pub open spec fn under<Id>(vals: ValueMap<Id>, key: TypeId) -> Map<Id, ErasedValue> {
    if vals.contains_key(key) {
        vals[key]
    } else {
        Map::empty()
    }
}

/// What giving `entity` the component `component` under `key` does to the
/// components: when nothing is handed back, `component` becomes `entity`'s
/// component there and nothing else changes; otherwise nothing changes.
pub open spec fn insert_value_outcome<Id, C: 'static>(
    before: ValueMap<Id>,
    after: ValueMap<Id>,
    key: TypeId,
    entity: Id,
    component: C,
    r: Option<C>,
) -> bool {
    if r is None {
        after == before.insert(key, under(before, key).insert(entity, erase(component)))
    } else {
        after == before
    }
}

/// What taking `entity`'s component under `key` away does to the
/// components: the component handed back is the one `entity` had there, and
/// only that one is gone; when nothing is handed back nothing changes.
pub open spec fn remove_value_outcome<Id, C: 'static>(
    before: ValueMap<Id>,
    after: ValueMap<Id>,
    key: TypeId,
    entity: Id,
    r: Option<C>,
) -> bool {
    match r {
        Some(c) => reports(before, key, entity, c) && after == before.insert(key, before[key].remove(entity)),
        None => after == before,
    }
}

/// `vals` without the storages that `m` reports as holding nothing.
pub open spec fn values_without_empty<Id>(vals: ValueMap<Id>, m: Map<TypeId, Set<Id>>) -> ValueMap<Id> {
    Map::new(|k: TypeId| vals.contains_key(k) && m.contains_key(k) && !m[k].is_empty(), |k: TypeId| vals[k])
}

/// `vals` with `id`'s components taken out of every storage, dropping the
/// storages that `m` shows are left holding nothing.
pub open spec fn values_without_entity<Id>(vals: ValueMap<Id>, m: Map<TypeId, Set<Id>>, id: Id) -> ValueMap<Id> {
    Map::new(
        |k: TypeId| vals.contains_key(k) && m.contains_key(k) && !m[k].remove(id).is_empty(),
        |k: TypeId| vals[k].remove(id),
    )
}

/// A read gives back what a write wrote: after `insert` hands nothing back,
/// the component read for `entity` under `key` is the one inserted, and
/// every other (type, entity) pair reports what it reported before.
pub proof fn law_get_after_insert_value<Id, C: 'static, D: 'static>(
    before: ValueMap<Id>,
    after: ValueMap<Id>,
    key: TypeId,
    entity: Id,
    component: C,
    got: C,
    other_key: TypeId,
    other: Id,
    x: D,
)
    requires
        insert_value_outcome(before, after, key, entity, component, None::<C>),
        reports(after, key, entity, got),
    ensures
        erase(got) == erase(component),
        reports(after, key, entity, component),
        other_key != key || other != entity ==> (reports(after, other_key, other, x) <==> reports(
            before,
            other_key,
            other,
            x,
        )),
{
}

/// Writing through `get_mut` changes the written entity's component only:
/// afterwards the entity reports the value written, and every other (type,
/// entity) pair reports what it reported before.
pub proof fn law_get_mut_writes_only_entity<Id, C: 'static, D: 'static>(
    before: ValueMap<Id>,
    after: ValueMap<Id>,
    key: TypeId,
    entity: Id,
    found: C,
    written: C,
    other_key: TypeId,
    other: Id,
    x: D,
)
    requires
        reports(before, key, entity, found),
        after == before.insert(key, before[key].insert(entity, erase(written))),
    ensures
        reports(after, key, entity, written),
        other_key != key || other != entity ==> (reports(after, other_key, other, x) <==> reports(
            before,
            other_key,
            other,
            x,
        )),
{
}

/// `remove` hands back the removed entity's own component, leaves it
/// without one of that type, and leaves every other (type, entity) pair
/// reporting what it reported before.
pub proof fn law_remove_returns_own_component<Id, C: 'static, D: 'static>(
    before: ValueMap<Id>,
    after: ValueMap<Id>,
    key: TypeId,
    entity: Id,
    c: C,
    other_key: TypeId,
    other: Id,
    x: D,
)
    requires
        remove_value_outcome(before, after, key, entity, Some(c)),
    ensures
        reports(before, key, entity, c),
        !after[key].contains_key(entity),
        other_key != key || other != entity ==> (reports(after, other_key, other, x) <==> reports(
            before,
            other_key,
            other,
            x,
        )),
{
}

/// Removing undoes inserting: giving an entity that had no component under
/// `key` (where a storage exists) the component `c` and removing it again
/// hands `c` back and restores every component.
pub proof fn law_remove_undoes_insert_value<Id, C: 'static>(
    before: ValueMap<Id>,
    mid: ValueMap<Id>,
    after: ValueMap<Id>,
    key: TypeId,
    entity: Id,
    c: C,
    r: Option<C>,
)
    requires
        before.contains_key(key),
        !before[key].contains_key(entity),
        insert_value_outcome(before, mid, key, entity, c, None::<C>),
        remove_value_outcome(mid, after, key, entity, r),
        r is Some,
    ensures
        erase(r->0) == erase(c),
        after == before,
{
    assert(mid[key].remove(entity) =~= before[key]);
    assert(after =~= before);
}

/// Whether `x` is in the set of every key in `ks`.
pub open spec fn in_all<Id>(m: Map<TypeId, Set<Id>>, ks: Seq<TypeId>, x: Id) -> bool {
    forall|u: int| 0 <= u < ks.len() ==> #[trigger] m[ks[u]].contains(x)
}

/// `m` with `id` taken out of every set, dropping the sets left empty.
pub open spec fn without_entity<Id>(m: Map<TypeId, Set<Id>>, id: Id) -> Map<TypeId, Set<Id>> {
    Map::new(|k: TypeId| m.contains_key(k) && !m[k].remove(id).is_empty(), |k: TypeId| m[k].remove(id))
}

/// `m` without its empty sets.
pub open spec fn without_empty<Id>(m: Map<TypeId, Set<Id>>) -> Map<TypeId, Set<Id>> {
    Map::new(|k: TypeId| m.contains_key(k) && !m[k].is_empty(), |k: TypeId| m[k])
}

pub proof fn lemma_view_at<Id>(s: Seq<StoreEntry<Id>>, i: int)
    requires
        keys_unique(s),
        0 <= i < s.len(),
    ensures
        entries_view(s).contains_key(s[i].key),
        entries_view(s)[s[i].key] == s[i].store.stored_ids(),
{
    let k = s[i].key;
    assert(exists|j: int| 0 <= j < s.len() && s[j].key == k);
    let j = choose|j: int| 0 <= j < s.len() && s[j].key == k;
    assert(j == i);
}

/// Two entry lists with the same key at each position have the same keys
/// in view, each mapped to its own entry's ids.
pub proof fn lemma_views_pointwise<Id>(s1: Seq<StoreEntry<Id>>, s2: Seq<StoreEntry<Id>>)
    requires
        keys_unique(s1),
        s1.len() == s2.len(),
        forall|i: int| 0 <= i < s1.len() ==> (#[trigger] s2[i]).key == s1[i].key,
    ensures
        keys_unique(s2),
        entries_view(s2).dom() == entries_view(s1).dom(),
        forall|i: int| 0 <= i < s2.len() ==> entries_view(s2)[#[trigger] s2[i].key] == s2[i].store.stored_ids(),
{
    assert forall|i: int, j: int| 0 <= i < s2.len() && 0 <= j < s2.len() && i != j implies s2[i].key
        != s2[j].key by {
        assert(s1[i].key != s1[j].key);
    }
    assert forall|i: int| 0 <= i < s2.len() implies entries_view(s2)[#[trigger] s2[i].key]
        == s2[i].store.stored_ids() by {
        lemma_view_at(s2, i);
    }
    assert forall|k: TypeId| entries_view(s1).contains_key(k) implies entries_view(s2).contains_key(k) by {
        let j = choose|j: int| 0 <= j < s1.len() && s1[j].key == k;
        assert(s2[j].key == k);
    }
    assert forall|k: TypeId| entries_view(s2).contains_key(k) implies entries_view(s1).contains_key(k) by {
        let j = choose|j: int| 0 <= j < s2.len() && s2[j].key == k;
        assert(s1[j].key == k);
    }
    assert(entries_view(s2).dom() =~= entries_view(s1).dom());
}

pub proof fn lemma_view_push<Id>(s: Seq<StoreEntry<Id>>, e: StoreEntry<Id>)
    requires
        keys_unique(s),
        !entries_view(s).contains_key(e.key),
    ensures
        keys_unique(s.push(e)),
        entries_view(s.push(e)) == entries_view(s).insert(e.key, e.store.stored_ids()),
{
    let t = s.push(e);
    assert forall|i: int, j: int| 0 <= i < t.len() && 0 <= j < t.len() && i != j implies t[i].key
        != t[j].key by {
        if i == s.len() {
            assert(s[j].key != e.key);
        } else if j == s.len() {
            assert(s[i].key != e.key);
        } else {
            assert(t[i] == s[i] && t[j] == s[j]);
        }
    }
    assert forall|k: TypeId| #[trigger] entries_view(t).contains_key(k) implies entries_view(s).insert(
        e.key,
        e.store.stored_ids(),
    ).contains_key(k) && entries_view(t)[k] == entries_view(s).insert(e.key, e.store.stored_ids())[k] by {
        let j = choose|j: int| 0 <= j < t.len() && t[j].key == k;
        lemma_view_at(t, j);
        if j < s.len() {
            assert(t[j] == s[j]);
            lemma_view_at(s, j);
        }
    }
    assert forall|k: TypeId| #[trigger] entries_view(s).insert(e.key, e.store.stored_ids()).contains_key(
        k,
    ) implies entries_view(t).contains_key(k) by {
        if k == e.key {
            lemma_view_at(t, s.len() as int);
        } else {
            let j = choose|j: int| 0 <= j < s.len() && s[j].key == k;
            assert(t[j] == s[j]);
            lemma_view_at(t, j);
        }
    }
    assert(entries_view(t) =~= entries_view(s).insert(e.key, e.store.stored_ids()));
}

pub proof fn lemma_view_swap_remove<Id>(s: Seq<StoreEntry<Id>>, i: int)
    requires
        keys_unique(s),
        0 <= i < s.len(),
    ensures
        keys_unique(s.update(i, s.last()).drop_last()),
        entries_view(s.update(i, s.last()).drop_last()) == entries_view(s).remove(s[i].key),
{
    let n = s.len();
    let t = s.update(i, s.last()).drop_last();
    let src = |p: int| if p == i { n - 1 } else { p };
    assert forall|p: int| 0 <= p < t.len() implies #[trigger] t[p] == s[src(p)] && src(p) != i by {}
    assert forall|p: int, q: int| 0 <= p < t.len() && 0 <= q < t.len() && p != q implies t[p].key
        != t[q].key by {
        assert(t[p] == s[src(p)]);
        assert(t[q] == s[src(q)]);
    }
    assert forall|k: TypeId| #[trigger] entries_view(t).contains_key(k) implies entries_view(s).remove(
        s[i].key,
    ).contains_key(k) && entries_view(t)[k] == entries_view(s)[k] by {
        let p = choose|p: int| 0 <= p < t.len() && t[p].key == k;
        lemma_view_at(t, p);
        assert(t[p] == s[src(p)]);
        lemma_view_at(s, src(p));
        assert(s[src(p)].key != s[i].key);
    }
    assert forall|k: TypeId| #[trigger] entries_view(s).remove(s[i].key).contains_key(k) implies entries_view(
        t,
    ).contains_key(k) by {
        let j = choose|j: int| 0 <= j < s.len() && s[j].key == k;
        assert(j != i);
        let p = if j == n - 1 { i } else { j };
        assert(t[p] == s[j]);
        lemma_view_at(t, p);
    }
    assert(entries_view(t) =~= entries_view(s).remove(s[i].key));
}

/// Replacing the entry at `i` by one with the same key changes the view
/// under that key only.
pub proof fn lemma_view_update<Id>(s: Seq<StoreEntry<Id>>, i: int, e: StoreEntry<Id>)
    requires
        keys_unique(s),
        0 <= i < s.len(),
        e.key == s[i].key,
    ensures
        keys_unique(s.update(i, e)),
        entries_view(s.update(i, e)) == entries_view(s).insert(e.key, e.store.stored_ids()),
{
    let t = s.update(i, e);
    lemma_views_pointwise(s, t);
    assert forall|k: TypeId| #[trigger] entries_view(t).contains_key(k) implies entries_view(t)[k]
        == entries_view(s).insert(e.key, e.store.stored_ids())[k] by {
        let j = choose|j: int| 0 <= j < t.len() && t[j].key == k;
        lemma_view_at(t, j);
        if j != i {
            lemma_view_at(s, j);
        }
    }
    lemma_view_at(s, i);
    assert(entries_view(t) =~= entries_view(s).insert(e.key, e.store.stored_ids()));
}

pub proof fn lemma_view_update_all<Id>(s: Seq<StoreEntry<Id>>, i: int)
    requires
        keys_unique(s),
        0 <= i < s.len(),
    ensures
        entries_view(s).insert(s[i].key, s[i].store.stored_ids()) == entries_view(s),
        forall|e: StoreEntry<Id>|
            e.key == s[i].key ==> {
                &&& keys_unique(#[trigger] s.update(i, e))
                &&& entries_view(s.update(i, e)) == entries_view(s).insert(e.key, e.store.stored_ids())
            },
{
    assert forall|e: StoreEntry<Id>| e.key == s[i].key implies {
        &&& keys_unique(#[trigger] s.update(i, e))
        &&& entries_view(s.update(i, e)) == entries_view(s).insert(e.key, e.store.stored_ids())
    } by {
        lemma_view_update(s, i, e);
    }
    lemma_view_at(s, i);
    assert(entries_view(s).insert(s[i].key, s[i].store.stored_ids()) =~= entries_view(s));
}

/// The components each filed storage holds, with their types hidden, by
/// type key. Where two entries share a key the map is unspecified;
/// `keys_unique` rules that out.
pub open spec fn entries_values<Id>(s: Seq<StoreEntry<Id>>) -> Map<TypeId, Map<Id, ErasedValue>> {
    Map::new(
        |k: TypeId| exists|i: int| 0 <= i < s.len() && s[i].key == k,
        |k: TypeId| s[choose|i: int| 0 <= i < s.len() && s[i].key == k].store.erased_view(),
    )
}

pub proof fn lemma_values_at<Id>(s: Seq<StoreEntry<Id>>, i: int)
    requires
        keys_unique(s),
        0 <= i < s.len(),
    ensures
        entries_values(s).contains_key(s[i].key),
        entries_values(s)[s[i].key] == s[i].store.erased_view(),
{
    let k = s[i].key;
    assert(exists|j: int| 0 <= j < s.len() && s[j].key == k);
    let j = choose|j: int| 0 <= j < s.len() && s[j].key == k;
    assert(j == i);
}

/// Two entry lists with the same key at each position have the same keys
/// in the value map, each mapped to its own entry's components.
pub proof fn lemma_values_pointwise<Id>(s1: Seq<StoreEntry<Id>>, s2: Seq<StoreEntry<Id>>)
    requires
        keys_unique(s1),
        s1.len() == s2.len(),
        forall|i: int| 0 <= i < s1.len() ==> (#[trigger] s2[i]).key == s1[i].key,
    ensures
        keys_unique(s2),
        entries_values(s2).dom() == entries_values(s1).dom(),
        forall|i: int| 0 <= i < s2.len() ==> entries_values(s2)[#[trigger] s2[i].key] == s2[i].store.erased_view(),
{
    assert forall|i: int, j: int| 0 <= i < s2.len() && 0 <= j < s2.len() && i != j implies s2[i].key
        != s2[j].key by {
        assert(s1[i].key != s1[j].key);
    }
    assert forall|i: int| 0 <= i < s2.len() implies entries_values(s2)[#[trigger] s2[i].key]
        == s2[i].store.erased_view() by {
        lemma_values_at(s2, i);
    }
    assert forall|k: TypeId| entries_values(s1).contains_key(k) implies entries_values(s2).contains_key(k) by {
        let j = choose|j: int| 0 <= j < s1.len() && s1[j].key == k;
        assert(s2[j].key == k);
    }
    assert forall|k: TypeId| entries_values(s2).contains_key(k) implies entries_values(s1).contains_key(k) by {
        let j = choose|j: int| 0 <= j < s2.len() && s2[j].key == k;
        assert(s1[j].key == k);
    }
    assert(entries_values(s2).dom() =~= entries_values(s1).dom());
}

pub proof fn lemma_values_push<Id>(s: Seq<StoreEntry<Id>>, e: StoreEntry<Id>)
    requires
        keys_unique(s),
        !entries_values(s).contains_key(e.key),
    ensures
        keys_unique(s.push(e)),
        entries_values(s.push(e)) == entries_values(s).insert(e.key, e.store.erased_view()),
{
    let t = s.push(e);
    assert forall|i: int, j: int| 0 <= i < t.len() && 0 <= j < t.len() && i != j implies t[i].key
        != t[j].key by {
        if i == s.len() {
            assert(s[j].key != e.key);
        } else if j == s.len() {
            assert(s[i].key != e.key);
        } else {
            assert(t[i] == s[i] && t[j] == s[j]);
        }
    }
    assert forall|k: TypeId| #[trigger] entries_values(t).contains_key(k) implies entries_values(s).insert(
        e.key,
        e.store.erased_view(),
    ).contains_key(k) && entries_values(t)[k] == entries_values(s).insert(e.key, e.store.erased_view())[k] by {
        let j = choose|j: int| 0 <= j < t.len() && t[j].key == k;
        lemma_values_at(t, j);
        if j < s.len() {
            assert(t[j] == s[j]);
            lemma_values_at(s, j);
        }
    }
    assert forall|k: TypeId| #[trigger] entries_values(s).insert(e.key, e.store.erased_view()).contains_key(
        k,
    ) implies entries_values(t).contains_key(k) by {
        if k == e.key {
            lemma_values_at(t, s.len() as int);
        } else {
            let j = choose|j: int| 0 <= j < s.len() && s[j].key == k;
            assert(t[j] == s[j]);
            lemma_values_at(t, j);
        }
    }
    assert(entries_values(t) =~= entries_values(s).insert(e.key, e.store.erased_view()));
}

pub proof fn lemma_values_swap_remove<Id>(s: Seq<StoreEntry<Id>>, i: int)
    requires
        keys_unique(s),
        0 <= i < s.len(),
    ensures
        keys_unique(s.update(i, s.last()).drop_last()),
        entries_values(s.update(i, s.last()).drop_last()) == entries_values(s).remove(s[i].key),
{
    let n = s.len();
    let t = s.update(i, s.last()).drop_last();
    let src = |p: int| if p == i { n - 1 } else { p };
    assert forall|p: int| 0 <= p < t.len() implies #[trigger] t[p] == s[src(p)] && src(p) != i by {}
    assert forall|p: int, q: int| 0 <= p < t.len() && 0 <= q < t.len() && p != q implies t[p].key
        != t[q].key by {
        assert(t[p] == s[src(p)]);
        assert(t[q] == s[src(q)]);
    }
    assert forall|k: TypeId| #[trigger] entries_values(t).contains_key(k) implies entries_values(s).remove(
        s[i].key,
    ).contains_key(k) && entries_values(t)[k] == entries_values(s)[k] by {
        let p = choose|p: int| 0 <= p < t.len() && t[p].key == k;
        lemma_values_at(t, p);
        assert(t[p] == s[src(p)]);
        lemma_values_at(s, src(p));
        assert(s[src(p)].key != s[i].key);
    }
    assert forall|k: TypeId| #[trigger] entries_values(s).remove(s[i].key).contains_key(k) implies entries_values(
        t,
    ).contains_key(k) by {
        let j = choose|j: int| 0 <= j < s.len() && s[j].key == k;
        assert(j != i);
        let p = if j == n - 1 { i } else { j };
        assert(t[p] == s[j]);
        lemma_values_at(t, p);
    }
    assert(entries_values(t) =~= entries_values(s).remove(s[i].key));
}

/// Replacing the entry at `i` by one with the same key changes the value
/// map under that key only.
pub proof fn lemma_values_update<Id>(s: Seq<StoreEntry<Id>>, i: int, e: StoreEntry<Id>)
    requires
        keys_unique(s),
        0 <= i < s.len(),
        e.key == s[i].key,
    ensures
        keys_unique(s.update(i, e)),
        entries_values(s.update(i, e)) == entries_values(s).insert(e.key, e.store.erased_view()),
{
    let t = s.update(i, e);
    lemma_values_pointwise(s, t);
    assert forall|k: TypeId| #[trigger] entries_values(t).contains_key(k) implies entries_values(t)[k]
        == entries_values(s).insert(e.key, e.store.erased_view())[k] by {
        let j = choose|j: int| 0 <= j < t.len() && t[j].key == k;
        lemma_values_at(t, j);
        if j != i {
            lemma_values_at(s, j);
        }
    }
    lemma_values_at(s, i);
    assert(entries_values(t) =~= entries_values(s).insert(e.key, e.store.erased_view()));
}

pub proof fn lemma_values_update_all<Id>(s: Seq<StoreEntry<Id>>, i: int)
    requires
        keys_unique(s),
        0 <= i < s.len(),
    ensures
        entries_values(s).insert(s[i].key, s[i].store.erased_view()) == entries_values(s),
        forall|e: StoreEntry<Id>|
            e.key == s[i].key ==> {
                &&& keys_unique(#[trigger] s.update(i, e))
                &&& entries_values(s.update(i, e)) == entries_values(s).insert(e.key, e.store.erased_view())
            },
{
    assert forall|e: StoreEntry<Id>| e.key == s[i].key implies {
        &&& keys_unique(#[trigger] s.update(i, e))
        &&& entries_values(s.update(i, e)) == entries_values(s).insert(e.key, e.store.erased_view())
    } by {
        lemma_values_update(s, i, e);
    }
    lemma_values_at(s, i);
    assert(entries_values(s).insert(s[i].key, s[i].store.erased_view()) =~= entries_values(s));
}

/// With distinct keys, the view has one key per entry.
pub proof fn lemma_view_len<Id>(s: Seq<StoreEntry<Id>>)
    requires
        keys_unique(s),
    ensures
        entries_view(s).dom().finite(),
        entries_view(s).len() == s.len(),
{
    let keys = s.map_values(|e: StoreEntry<Id>| e.key);
    assert(keys.no_duplicates()) by {
        assert forall|i: int, j: int| 0 <= i < keys.len() && 0 <= j < keys.len() && i != j implies keys[i]
            != keys[j] by {
            assert(s[i].key != s[j].key);
        }
    }
    assert(entries_view(s).dom() =~= keys.to_set()) by {
        assert forall|k: TypeId| keys.to_set().contains(k) implies entries_view(s).dom().contains(k) by {
            let i = choose|i: int| 0 <= i < keys.len() && keys[i] == k;
            assert(s[i].key == k);
        }
        assert forall|k: TypeId| entries_view(s).dom().contains(k) implies keys.to_set().contains(k) by {
            let i = choose|i: int| 0 <= i < s.len() && s[i].key == k;
            assert(keys[i] == k);
        }
    }
    keys.unique_seq_to_set();
}

/// After giving `entity` a component filed under `key`, `entity` holds a
/// component under `key` (unless the storage there holds another type, in
/// which case nothing changed and the component is handed back), and no
/// other (type, entity) pair changed.
pub proof fn law_insert_then_holds<Id, C>(
    before: Map<TypeId, Set<Id>>,
    after: Map<TypeId, Set<Id>>,
    key: TypeId,
    entity: Id,
    component: C,
    r: Option<C>,
    other_key: TypeId,
    other: Id,
)
    requires
        insert_outcome(before, after, key, entity, component, r),
    ensures
        holds(after, key, entity) || (after == before && r == Some(component)),
        other_key != key || other != entity ==> holds(after, other_key, other) == holds(before, other_key, other),
{
}

/// Taking `entity`'s component under `key` away leaves it holding none there
/// (unless the storage there holds another type, in which case nothing
/// changed), and no other (type, entity) pair changed.
pub proof fn law_remove_then_not_holds<Id, C>(
    before: Map<TypeId, Set<Id>>,
    after: Map<TypeId, Set<Id>>,
    key: TypeId,
    entity: Id,
    r: Option<C>,
    other_key: TypeId,
    other: Id,
)
    requires
        remove_outcome(before, after, key, entity, r),
    ensures
        !holds(after, key, entity) || (after == before && r is None),
        r is Some ==> holds(before, key, entity),
        other_key != key || other != entity ==> holds(after, other_key, other) == holds(before, other_key, other),
{
}

/// Deleting an entity's components leaves it with none of any type, leaves
/// every other entity's components as they were, and leaves no empty
/// storage behind.
pub proof fn law_delete_entity<Id>(m: Map<TypeId, Set<Id>>, entity: Id, key: TypeId, other: Id)
    ensures
        !holds(without_entity(m, entity), key, entity),
        other != entity ==> holds(without_entity(m, entity), key, other) == holds(m, key, other),
        without_entity(m, entity).contains_key(key) ==> !without_entity(m, entity)[key].is_empty(),
{
    if other != entity && holds(m, key, other) {
        assert(m[key].remove(entity).contains(other));
    }
}

/// An entity matches a query exactly when the query names at least one
/// type and the entity holds a component of every type it names.
pub proof fn law_matching<Id>(m: Map<TypeId, Set<Id>>, keys: Seq<TypeId>, entity: Id)
    ensures
        matching(m, keys).contains(entity) <==> keys.len() > 0 && forall|j: int|
            0 <= j < keys.len() ==> #[trigger] holds(m, keys[j], entity),
{
    let all_present = keys.len() > 0 && forall|j: int| 0 <= j < keys.len() ==> m.contains_key(#[trigger] keys[j]);
    if all_present {
        assert(matching(m, keys).contains(entity) == in_all(m, keys, entity));
        if in_all(m, keys, entity) {
            assert forall|j: int| 0 <= j < keys.len() implies #[trigger] holds(m, keys[j], entity) by {
                assert(m[keys[j]].contains(entity));
            }
        }
        if forall|j: int| 0 <= j < keys.len() ==> #[trigger] holds(m, keys[j], entity) {
            assert forall|u: int| 0 <= u < keys.len() implies #[trigger] m[keys[u]].contains(entity) by {
                assert(holds(m, keys[u], entity));
            }
        }
    } else {
        assert(matching(m, keys) == Set::<Id>::empty());
        if keys.len() > 0 && forall|j: int| 0 <= j < keys.len() ==> #[trigger] holds(m, keys[j], entity) {
            assert forall|j: int| 0 <= j < keys.len() implies m.contains_key(#[trigger] keys[j]) by {
                assert(holds(m, keys[j], entity));
            }
        }
    }
}

/// What is left in the manager after taking out, one after another, the
/// storages filed under `keys` (as `take_store` does for each).
pub open spec fn without_keys<Id>(m: Map<TypeId, Set<Id>>, keys: Seq<TypeId>) -> Map<TypeId, Set<Id>> {
    m.remove_keys(keys.to_set())
}

/// Sampling the storages of a key list, one key after another: the take
/// for `keys[i]` finds a storage exactly when the manager has one under
/// that key and the key did not occur earlier in the list; what it finds
/// is the manager's storage under that key; and afterwards that key is
/// gone too.
pub proof fn law_sampling<Id>(m: Map<TypeId, Set<Id>>, keys: Seq<TypeId>, i: int)
    requires
        0 <= i < keys.len(),
    ensures
        without_keys(m, keys.take(i)).contains_key(keys[i]) <==> (m.contains_key(keys[i]) && !keys.take(
            i,
        ).contains(keys[i])),
        without_keys(m, keys.take(i)).contains_key(keys[i]) ==> without_keys(m, keys.take(i))[keys[i]]
            == m[keys[i]],
        without_keys(m, keys.take(i + 1)) == without_keys(m, keys.take(i)).remove(keys[i]),
{
    let front = keys.take(i);
    let longer = keys.take(i + 1);
    assert(longer =~= front.push(keys[i]));
    assert(longer.to_set() =~= front.to_set().insert(keys[i])) by {
        assert forall|k: TypeId| longer.to_set().contains(k) == front.to_set().insert(keys[i]).contains(k) by {
            if longer.contains(k) && k != keys[i] {
                let p = choose|p: int| 0 <= p < longer.len() && #[trigger] longer[p] == k;
                assert(front[p] == k);
            }
            if front.contains(k) {
                let p = choose|p: int| 0 <= p < front.len() && #[trigger] front[p] == k;
                assert(longer[p] == k);
            }
            if k == keys[i] {
                assert(longer[i] == k);
            }
        }
    }
    assert(without_keys(m, keys.take(i + 1)) =~= without_keys(m, keys.take(i)).remove(keys[i]));
}

/// Putting back what was taken restores the manager: the storages left
/// after taking out those under `keys`, together with the manager's own
/// storages under `keys`, are the manager's storages.
pub proof fn law_sampling_restores<Id>(m: Map<TypeId, Set<Id>>, keys: Seq<TypeId>)
    ensures
        without_keys(m, keys).union_prefer_right(m.restrict(keys.to_set())) == m,
{
    assert(without_keys(m, keys).union_prefer_right(m.restrict(keys.to_set())) =~= m);
}

/// The storages of all component types, each filed under its type key.
#[verifier::reject_recursive_types(Id)]
pub struct ComponentManager<Id> {
    stores: Vec<StoreEntry<Id>>,
}

impl<Id> View for ComponentManager<Id> {
    type V = Map<TypeId, Set<Id>>;

    /// For each component type with a storage, the entities holding one.
    closed spec fn view(&self) -> Map<TypeId, Set<Id>> {
        entries_view(self.stores@)
    }
}

impl<Id> ComponentManager<Id> {
    /// For each component type with a storage, each holding entity's
    /// component, with its type hidden.
    pub closed spec fn values(&self) -> ValueMap<Id> {
        entries_values(self.stores@)
    }

    /// No two storages share a key, and each storage is valid.
    pub closed spec fn well_formed(&self) -> bool {
        &&& vstd::std_specs::hash::obeys_key_model::<Id>()
        &&& keys_unique(self.stores@)
        &&& entries_valid(self.stores@)
    }

    /// How many component types have a storage.
    pub fn store_count(&self) -> (r: usize)
        requires
            self.well_formed(),
        ensures
            r == self@.len(),
    {
        proof {
            lemma_view_len(self.stores@);
        }
        self.stores.len()
    }

    /// The position of the storage filed under `key`.
    fn find(&self, key: &TypeId) -> (r: Option<usize>)
        requires
            self.well_formed(),
        ensures
            match r {
                Some(i) => {
                    &&& i < self.stores@.len()
                    &&& self.stores@[i as int].key == *key
                    &&& self@.contains_key(*key)
                    &&& self@[*key] == self.stores@[i as int].store.stored_ids()
                },
                None => !self@.contains_key(*key),
            },
    {
        let mut i: usize = 0;
        while i < self.stores.len()
            invariant
                self.well_formed(),
                i <= self.stores@.len(),
                forall|j: int| 0 <= j < i ==> self.stores@[j].key != *key,
            decreases self.stores@.len() - i,
        {
            if same_key(&self.stores[i].key, key) {
                proof {
                    lemma_view_at(self.stores@, i as int);
                }
                return Some(i);
            }
            i = i + 1;
        }
        None
    }
}


impl<Id: Copy + Eq + Hash + 'static> ComponentManager<Id> {
    /// The storage filed under `key`, seen as a storage of `C`. It is `None`
    /// when no storage is filed under `key`, or when the one there does not
    /// hold components of type `C`.
    /// Success is decided at run time by downcasting the storage filed under
    /// `key` to a storage of `C`; the contract states what holds either way.
    pub fn get_store_by_key<C: 'static>(&self, key: &TypeId) -> (r: Option<&ComponentStorage<Id, C>>)
        requires
            self.well_formed(),
        ensures
            r matches Some(s) ==> {
                &&& self@.contains_key(*key)
                &&& s@.dom() == self@[*key]
                &&& s.well_formed()
                &&& self.values().contains_key(*key)
                &&& erase_all(s@) == self.values()[*key]
            },
            !self@.contains_key(*key) ==> r is None,
    {
        match self.find(key) {
            Some(i) => {
                assert(self.stores@[i as int].store.storage_valid());
                proof {
                    lemma_values_at(self.stores@, i as int);
                }
                downcast_storage::<Id, C>(&self.stores[i].store)
            },
            None => None,
        }
    }

    /// The component of type `C` (filed under `key`) held by `entity`.
    /// Success is decided at run time by downcasting the storage filed under
    /// `key` to a storage of `C`; the contract states what holds either way.
    pub fn get_by_key<C: 'static>(&self, key: &TypeId, entity: &Id) -> (r: Option<&C>)
        requires
            self.well_formed(),
        ensures
            r is Some ==> holds(self@, *key, *entity),
            !holds(self@, *key, *entity) ==> r is None,
            r matches Some(c) ==> reports(self.values(), *key, *entity, *c),
    {
        match self.get_store_by_key::<C>(key) {
            Some(s) => {
                let r = s.get(entity);
                proof {
                    if r is Some {
                        assert(erase_all(s@).contains_key(*entity));
                    }
                }
                r
            },
            None => None,
        }
    }

    /// Mutable access to the storage filed under `key`, seen as a storage of
    /// `C`; `None` as for `get_store_by_key`. What the caller leaves in the
    /// storage is what the manager then holds under `key`.
    /// Success is decided at run time by downcasting the storage filed under
    /// `key` to a storage of `C`; the contract states what holds either way.
    pub fn get_mut_store_by_key<C: 'static>(&mut self, key: &TypeId) -> (r: Option<
        &mut ComponentStorage<Id, C>,
    >)
        requires
            old(self).well_formed(),
        ensures
            match r {
                Some(s) => {
                    &&& old(self)@.contains_key(*key)
                    &&& s@.dom() == old(self)@[*key]
                    &&& s.well_formed()
                    &&& final(self)@ == old(self)@.insert(*key, final(s)@.dom())
                    &&& final(s).well_formed() ==> final(self).well_formed()
                    &&& old(self).values().contains_key(*key)
                    &&& erase_all(s@) == old(self).values()[*key]
                    &&& final(self).values() == old(self).values().insert(
                        *key,
                        erase_all(final(s)@),
                    )
                },
                None => {
                    &&& final(self)@ == old(self)@
                    &&& final(self).well_formed()
                    &&& final(self).values() == old(self).values()
                },
            },
            !old(self)@.contains_key(*key) ==> r is None,
    {
        match self.find(key) {
            Some(i) => {
                proof {
                    lemma_view_update_all(self.stores@, i as int);
                    lemma_values_update_all(self.stores@, i as int);
                    lemma_values_at(self.stores@, i as int);
                }
                downcast_storage_mut::<Id, C>(&mut self.stores[i].store)
            },
            None => None,
        }
    }
    /// Mutable access to the component of type `C` (filed under `key`) held
    /// by `entity`. Which entities hold which components does not change.
    /// Success is decided at run time by downcasting the storage filed under
    /// `key` to a storage of `C`; the contract states what holds either way.
    pub fn get_mut_by_key<C: 'static>(&mut self, key: &TypeId, entity: &Id) -> (r: Option<&mut C>)
        requires
            old(self).well_formed(),
        ensures
            final(self).well_formed(),
            final(self)@ == old(self)@,
            r is Some ==> holds(old(self)@, *key, *entity),
            !holds(old(self)@, *key, *entity) ==> r is None,
            match r {
                Some(c) => {
                    &&& reports(old(self).values(), *key, *entity, *c)
                    &&& final(self).values() == old(self).values().insert(
                        *key,
                        old(self).values()[*key].insert(*entity, erase(*final(c))),
                    )
                },
                None => final(self).values() == old(self).values(),
            },
    {
        match self.get_mut_store_by_key::<C>(key) {
            Some(s) => {
                proof {
                    assert(old(self)@.insert(*key, old(self)@[*key]) =~= old(self)@);
                }
                let ghost s0 = s@;
                let r = s.get_mut(entity);
                match r {
                    Some(c) => {
                        proof {
                            assert(erase_all(s0).contains_key(*entity));
                            lemma_erase_insert(s0, *entity, *final(c));
                        }
                        Some(c)
                    },
                    None => {
                        proof {
                            assert(old(self).values().insert(*key, erase_all(s0)) =~= old(
                                self,
                            ).values());
                        }
                        None
                    },
                }
            },
            None => None,
        }
    }

    /// Gives `entity` the component `component` of type `C`, filed under
    /// `key`, creating that storage if there is none, and hands back
    /// nothing: a component `entity` already had there is no longer reached
    /// (see `ComponentStorage::insert`). Should the storage filed under `key`
    /// hold another type, nothing changes and `component` is handed back.
    pub fn insert_by_key<C: 'static>(&mut self, key: &TypeId, entity: Id, component: C) -> (r: Option<C>)
        requires
            old(self).well_formed(),
        ensures
            final(self).well_formed(),
            insert_outcome(old(self)@, final(self)@, *key, entity, component, r),
            insert_value_outcome(old(self).values(), final(self).values(), *key, entity, component, r),
    {
        match self.find(key) {
            Some(i) => {
                proof {
                    lemma_view_update_all(self.stores@, i as int);
                    lemma_values_update_all(self.stores@, i as int);
                    lemma_values_at(self.stores@, i as int);
                }
                match downcast_storage_mut::<Id, C>(&mut self.stores[i].store) {
                    Some(s) => {
                        let ghost s0 = s@;
                        let r = s.insert(entity, component);
                        proof {
                            lemma_erase_insert(s0, entity, component);
                        }
                        r
                    },
                    None => Some(component),
                }
            },
            None => {
                let mut s = ComponentStorage::<Id, C>::default();
                s.insert(entity, component);
                assert(s@.dom() =~= set![entity]);
                assert(!old(self).values().contains_key(*key));
                proof {
                    lemma_erase_insert(Map::<Id, C>::empty(), entity, component);
                    assert(s@ =~= Map::<Id, C>::empty().insert(entity, component));
                    assert(erase_all(Map::<Id, C>::empty()) =~= Map::empty());
                }
                let entry = new_entry(*key, s);
                proof {
                    lemma_view_push(self.stores@, entry);
                    lemma_values_push(self.stores@, entry);
                }
                self.stores.push(entry);
                assert(entries_valid(self.stores@)) by {
                    assert forall|j: int| 0 <= j < self.stores@.len() implies (#[trigger] self.stores@[j]).store.storage_valid() by {
                        if j < old(self).stores@.len() {
                            assert(self.stores@[j] == old(self).stores@[j]);
                        }
                    }
                }
                None
            },
        }
    }

    /// Takes the component of type `C` (filed under `key`) away from
    /// `entity`, handing it back. The storage stays, even when left empty.
    /// Should the storage filed under `key` hold another type, nothing
    /// changes and the result is `None`.
    /// Success is decided at run time by downcasting the storage filed under
    /// `key` to a storage of `C`; the contract states what holds either way.
    pub fn remove_by_key<C: 'static>(&mut self, key: &TypeId, entity: &Id) -> (r: Option<C>)
        requires
            old(self).well_formed(),
        ensures
            final(self).well_formed(),
            remove_outcome(old(self)@, final(self)@, *key, *entity, r),
            remove_value_outcome(old(self).values(), final(self).values(), *key, *entity, r),
    {
        proof {
            if old(self)@.contains_key(*key) {
                assert(old(self)@.insert(*key, old(self)@[*key]) =~= old(self)@);
            }
        }
        match self.get_mut_store_by_key::<C>(key) {
            Some(s) => {
                let ghost before = s@;
                let r = s.remove(entity);
                proof {
                    if !before.contains_key(*entity) {
                        assert(s@ =~= before);
                        assert(old(self).values().insert(*key, erase_all(before)) =~= old(
                            self,
                        ).values());
                    } else {
                        assert(erase_all(before).contains_key(*entity));
                        lemma_erase_remove(before, *entity);
                    }
                }
                r
            },
            None => None,
        }
    }

    /// Takes the whole storage filed under `key` out of the manager, if it
    /// holds components of type `C`.
    /// Success is decided at run time by downcasting the storage filed under
    /// `key` to a storage of `C`; the contract states what holds either way.
    pub fn remove_store_by_key<C: 'static>(&mut self, key: &TypeId) -> (r: Option<ComponentStorage<Id, C>>)
        requires
            old(self).well_formed(),
        ensures
            final(self).well_formed(),
            match r {
                Some(s) => {
                    &&& old(self)@.contains_key(*key)
                    &&& s@.dom() == old(self)@[*key]
                    &&& s.well_formed()
                    &&& final(self)@ == old(self)@.remove(*key)
                    &&& old(self).values().contains_key(*key)
                    &&& erase_all(s@) == old(self).values()[*key]
                    &&& final(self).values() == old(self).values().remove(*key)
                },
                None => final(self)@ == old(self)@ && final(self).values() == old(self).values(),
            },
            !old(self)@.contains_key(*key) ==> r is None,
    {
        match self.find(key) {
            Some(i) => {
                let ghost s0 = self.stores@;
                proof {
                    lemma_view_update_all(self.stores@, i as int);
                    lemma_values_at(self.stores@, i as int);
                }
                let taken = match downcast_storage_mut::<Id, C>(&mut self.stores[i].store) {
                    Some(s) => {
                        let mut empty = ComponentStorage::<Id, C>::default();
                        std::mem::swap(s, &mut empty);
                        empty
                    },
                    None => {
                        return None;
                    },
                };
                let ghost mid = self.stores@;
                proof {
                    lemma_view_swap_remove(self.stores@, i as int);
                    lemma_values_swap_remove(self.stores@, i as int);
                    assert(mid == s0.update(i as int, mid[i as int]));
                    assert(mid[i as int].key == s0[i as int].key);
                    lemma_values_update(s0, i as int, mid[i as int]);
                    assert(entries_values(mid).remove(*key) =~= old(self).values().remove(*key));
                }
                self.stores.swap_remove(i);
                Some(taken)
            },
            None => None,
        }
    }
    /// Drops every storage that holds no component.
    fn drop_empty_stores(&mut self)
        requires
            old(self).well_formed(),
        ensures
            final(self).well_formed(),
            final(self)@ == without_empty(old(self)@),
            final(self).values() == values_without_empty(old(self).values(), old(self)@),
    {
        let mut i: usize = 0;
        while i < self.stores.len()
            invariant
                self.well_formed(),
                i <= self.stores@.len(),
                forall|j: int| 0 <= j < i ==> !(#[trigger] self.stores@[j]).store.stored_ids().is_empty(),
                forall|k: TypeId| #[trigger] self@.contains_key(k) ==> old(self)@.contains_key(k) && self@[k] == old(self)@[k],
                forall|k: TypeId| #[trigger] old(self)@.contains_key(k) && !old(self)@[k].is_empty() ==> self@.contains_key(k),
                forall|k: TypeId| #[trigger] self.values().contains_key(k) ==> self.values()[k] == old(self).values()[k],
            decreases self.stores@.len() - i,
        {
            assert(self.stores@[i as int].store.storage_valid());
            if self.stores[i].store.is_empty() {
                let ghost s0 = self.stores@;
                let ghost v0 = self@;
                let ghost w0 = self.values();
                proof {
                    lemma_view_at(s0, i as int);
                    lemma_view_swap_remove(s0, i as int);
                    lemma_values_swap_remove(s0, i as int);
                }
                self.stores.swap_remove(i);
                proof {
                    let n = s0.len();
                    assert forall|j: int| 0 <= j < self.stores@.len() implies (#[trigger] self.stores@[j]).store.storage_valid() by {
                        if j == i {
                            assert(self.stores@[j] == s0[n - 1]);
                        } else {
                            assert(self.stores@[j] == s0[j]);
                        }
                    }
                    assert forall|j: int| 0 <= j < i implies !(#[trigger] self.stores@[j]).store.stored_ids().is_empty() by {
                        assert(self.stores@[j] == s0[j]);
                    }
                    assert forall|k: TypeId| #[trigger] self@.contains_key(k) implies old(self)@.contains_key(k)
                        && self@[k] == old(self)@[k] by {
                        assert(self@ == v0.remove(s0[i as int].key));
                        assert(v0.contains_key(k));
                    }
                    assert forall|k: TypeId| #[trigger] self.values().contains_key(k) implies self.values()[k]
                        == old(self).values()[k] by {
                        assert(self.values() == w0.remove(s0[i as int].key));
                        assert(w0.contains_key(k));
                    }
                }
            } else {
                i = i + 1;
            }
        }
        proof {
            assert forall|k: TypeId| #[trigger] self@.contains_key(k) implies !self@[k].is_empty() by {
                let j = choose|j: int| 0 <= j < self.stores@.len() && self.stores@[j].key == k;
                lemma_view_at(self.stores@, j);
            }
            assert(self@ =~= without_empty(old(self)@));
            assert(self.values() =~= values_without_empty(old(self).values(), old(self)@));
        }
    }

    /// Takes `entity`'s components of every type away, then drops the
    /// storages left empty.
    pub fn delete_entity_components(&mut self, entity: &Id)
        requires
            old(self).well_formed(),
        ensures
            final(self).well_formed(),
            final(self)@ == without_entity(old(self)@, *entity),
            final(self).values() == values_without_entity(old(self).values(), old(self)@, *entity),
    {
        let ghost s0 = self.stores@;
        let mut i: usize = 0;
        while i < self.stores.len()
            invariant
                keys_unique(s0),
                self.stores@.len() == s0.len(),
                i <= s0.len(),
                vstd::std_specs::hash::obeys_key_model::<Id>(),
                entries_valid(self.stores@),
                forall|j: int| 0 <= j < s0.len() ==> (#[trigger] self.stores@[j]).key == s0[j].key,
                forall|j: int| 0 <= j < i ==> (#[trigger] self.stores@[j]).store.stored_ids() == s0[j].store.stored_ids().remove(*entity),
                forall|j: int| 0 <= j < i ==> (#[trigger] self.stores@[j]).store.erased_view() == s0[j].store.erased_view().remove(*entity),
                forall|j: int| i <= j < s0.len() ==> (#[trigger] self.stores@[j]) == s0[j],
            decreases s0.len() - i,
        {
            let ghost before = self.stores@;
            assert(self.stores@[i as int].store.storage_valid());
            self.stores[i].store.delete(entity);
            proof {
                assert forall|j: int| 0 <= j < self.stores@.len() && j != i implies #[trigger] self.stores@[j] == before[j] by {}
                assert forall|j: int| 0 <= j < self.stores@.len() implies (#[trigger] self.stores@[j]).store.storage_valid() by {
                    if j != i {
                        assert(self.stores@[j] == before[j]);
                    }
                }
            }
            i = i + 1;
        }
        proof {
            lemma_views_pointwise(s0, self.stores@);
            lemma_values_pointwise(s0, self.stores@);
            assert forall|k: TypeId| #[trigger] self@.contains_key(k) implies self@[k] == old(self)@[k].remove(*entity) by {
                let j = choose|j: int| 0 <= j < self.stores@.len() && self.stores@[j].key == k;
                lemma_view_at(s0, j);
            }
            assert forall|k: TypeId| #[trigger] self.values().contains_key(k) implies self.values()[k] == old(
                self,
            ).values()[k].remove(*entity) by {
                let j = choose|j: int| 0 <= j < self.stores@.len() && self.stores@[j].key == k;
                lemma_values_at(s0, j);
            }
            assert(self.values().dom() =~= old(self).values().dom());
        }
        let ghost mid = self@;
        let ghost midv = self.values();
        self.drop_empty_stores();
        proof {
            assert(mid.dom() == old(self)@.dom());
            assert(self@ =~= without_entity(old(self)@, *entity));
            assert(self.values() =~= values_without_entity(old(self).values(), old(self)@, *entity));
        }
    }

    /// Releases spare capacity in every storage, then drops the empty ones.
    pub fn shrink_to_fit(&mut self)
        requires
            old(self).well_formed(),
        ensures
            final(self).well_formed(),
            final(self)@ == without_empty(old(self)@),
            final(self).values() == values_without_empty(old(self).values(), old(self)@),
    {
        let ghost s0 = self.stores@;
        let mut i: usize = 0;
        while i < self.stores.len()
            invariant
                keys_unique(s0),
                self.stores@.len() == s0.len(),
                i <= s0.len(),
                vstd::std_specs::hash::obeys_key_model::<Id>(),
                entries_valid(self.stores@),
                forall|j: int| 0 <= j < s0.len() ==> (#[trigger] self.stores@[j]).key == s0[j].key,
                forall|j: int| 0 <= j < s0.len() ==> (#[trigger] self.stores@[j]).store.stored_ids() == s0[j].store.stored_ids(),
                forall|j: int| 0 <= j < s0.len() ==> (#[trigger] self.stores@[j]).store.erased_view() == s0[j].store.erased_view(),
            decreases s0.len() - i,
        {
            let ghost before = self.stores@;
            assert(self.stores@[i as int].store.storage_valid());
            self.stores[i].store.shrink_to_fit();
            proof {
                assert forall|j: int| 0 <= j < self.stores@.len() && j != i implies #[trigger] self.stores@[j] == before[j] by {}
                assert forall|j: int| 0 <= j < self.stores@.len() implies (#[trigger] self.stores@[j]).store.storage_valid() by {
                    if j != i {
                        assert(self.stores@[j] == before[j]);
                    }
                }
            }
            i = i + 1;
        }
        proof {
            lemma_views_pointwise(s0, self.stores@);
            assert forall|k: TypeId| #[trigger] self@.contains_key(k) implies self@[k] == old(self)@[k] by {
                let j = choose|j: int| 0 <= j < self.stores@.len() && self.stores@[j].key == k;
                lemma_view_at(s0, j);
            }
            assert(self@ =~= old(self)@);
            lemma_values_pointwise(s0, self.stores@);
            assert forall|k: TypeId| #[trigger] self.values().contains_key(k) implies self.values()[k] == old(
                self,
            ).values()[k] by {
                let j = choose|j: int| 0 <= j < self.stores@.len() && self.stores@[j].key == k;
                lemma_values_at(s0, j);
            }
            assert(self.values() =~= old(self).values());
        }
        self.drop_empty_stores();
    }
    /// The entities that have a component of every type in `keys`, each
    /// once; none when `keys` is empty or one of its types has no storage.
    /// A type repeated in `keys` is accepted and asked for once more; a
    /// system whose parameters repeat a type is applied to nothing (see
    /// `visits_allowed`), where handing it one component twice would be
    /// needed.
    pub fn query(&self, keys: &[TypeId]) -> (r: Vec<Id>)
        requires
            self.well_formed(),
        ensures
            r@.no_duplicates(),
            r@.to_set() == matching(self@, keys@),
    {
        if keys.len() == 0 {
            assert(Seq::<Id>::empty().to_set() =~= Set::<Id>::empty());
            return Vec::new();
        }
        let mut positions: Vec<usize> = Vec::new();
        let mut j: usize = 0;
        while j < keys.len()
            invariant
                self.well_formed(),
                j <= keys@.len(),
                positions@.len() == j,
                forall|t: int|
                    0 <= t < j ==> {
                        &&& #[trigger] positions@[t] < self.stores@.len()
                        &&& self@.contains_key(keys@[t])
                        &&& self@[keys@[t]] == self.stores@[positions@[t] as int].store.stored_ids()
                    },
            decreases keys@.len() - j,
        {
            match self.find(&keys[j]) {
                Some(p) => {
                    positions.push(p);
                },
                None => {
                    proof {
                        assert(!self@.contains_key(keys@[j as int]));
                        assert(matching(self@, keys@) == Set::<Id>::empty());
                    }
                    assert(Seq::<Id>::empty().to_set() =~= Set::<Id>::empty());
                    return Vec::new();
                },
            }
            j = j + 1;
        }
        let ghost m = self@;
        let ghost ks = keys@;
        assert(self.stores@[positions@[0] as int].store.storage_valid());
        let candidates = self.stores[positions[0]].store.ids();
        let mut result: Vec<Id> = Vec::new();
        let mut c: usize = 0;
        while c < candidates.len()
            invariant
                self.well_formed(),
                m == self@,
                ks == keys@,
                positions@.len() == ks.len(),
                ks.len() > 0,
                forall|t: int|
                    0 <= t < ks.len() ==> {
                        &&& #[trigger] positions@[t] < self.stores@.len()
                        &&& m.contains_key(ks[t])
                        &&& m[ks[t]] == self.stores@[positions@[t] as int].store.stored_ids()
                    },
                candidates@.no_duplicates(),
                candidates@.to_set() == m[ks[0]],
                c <= candidates@.len(),
                result@.no_duplicates(),
                forall|x: Id| #[trigger] result@.contains(x) <==> (exists|d: int| 0 <= d < c && candidates@[d] == x) && in_all(m, ks, x),
            decreases candidates@.len() - c,
        {
            let id = candidates[c];
            let mut all = true;
            let mut t: usize = 1;
            while t < positions.len()
                invariant
                    self.well_formed(),
                    1 <= t <= positions@.len(),
                    positions@.len() == ks.len(),
                    forall|u: int|
                        0 <= u < ks.len() ==> {
                            &&& #[trigger] positions@[u] < self.stores@.len()
                            &&& m.contains_key(ks[u])
                            &&& m[ks[u]] == self.stores@[positions@[u] as int].store.stored_ids()
                        },
                    m == self@,
                    all == (forall|u: int| 1 <= u < t ==> #[trigger] m[ks[u]].contains(id)),
                decreases positions@.len() - t,
            {
                let p = positions[t];
                assert(self.stores@[p as int].store.storage_valid());
                if !self.stores[p].store.contains(&id) {
                    all = false;
                }
                t = t + 1;
            }
            proof {
                assert(candidates@.to_set().contains(id));
                assert(m[ks[0]].contains(id));
                assert(all == in_all(m, ks, id));
            }
            let ghost prev = result@;
            if all {
                proof {
                    assert forall|d: int| 0 <= d < c implies candidates@[d] != id by {}
                    assert(!result@.contains(id));
                }
                result.push(id);
            }
            proof {
                assert forall|x: Id| #[trigger] result@.contains(x) implies (exists|d: int|
                    0 <= d < c + 1 && candidates@[d] == x) && in_all(m, ks, x) by {
                    if all && x == id {
                        assert(candidates@[c as int] == x);
                    } else {
                        if all {
                            let p = choose|p: int| 0 <= p < result@.len() && result@[p] == x;
                            assert(p < prev.len());
                            assert(prev[p] == x);
                        }
                        assert(prev.contains(x));
                    }
                }
                assert forall|x: Id| (exists|d: int| 0 <= d < c + 1 && candidates@[d] == x) && in_all(m, ks, x)
                    implies #[trigger] result@.contains(x) by {
                    let d = choose|d: int| 0 <= d < c + 1 && candidates@[d] == x;
                    if d == c {
                        assert(all);
                        assert(result@[prev.len() as int] == x);
                    } else {
                        assert(prev.contains(x));
                        let p = choose|p: int| 0 <= p < prev.len() && prev[p] == x;
                        assert(result@[p] == x);
                    }
                }
            }
            c = c + 1;
        }
        proof {
            assert forall|u: int| 0 <= u < ks.len() implies m.contains_key(#[trigger] ks[u]) by {
                assert(positions@[u] < self.stores@.len());
            }
            assert forall|x: Id| #[trigger] result@.to_set().contains(x) == matching(m, ks).contains(x) by {
                if in_all(m, ks, x) {
                    assert(m[ks[0]].contains(x));
                    assert(candidates@.to_set().contains(x));
                    let d = choose|d: int| 0 <= d < candidates@.len() && candidates@[d] == x;
                    assert(result@.contains(x));
                }
            }
            assert(result@.to_set() =~= matching(m, ks));
        }
        result
    }

    /// Takes the storage filed under `key` out of the manager, to be put
    /// back with `put_store`.
    pub(crate) fn take_store(&mut self, key: &TypeId) -> (r: Option<StoreEntry<Id>>)
        requires
            old(self).well_formed(),
        ensures
            final(self).well_formed(),
            match r {
                Some(e) => {
                    &&& old(self)@.contains_key(*key)
                    &&& e.key == *key
                    &&& e.store.storage_valid()
                    &&& e.store.stored_ids() == old(self)@[*key]
                    &&& final(self)@ == old(self)@.remove(*key)
                    &&& old(self).values().contains_key(*key)
                    &&& e.store.erased_view() == old(self).values()[*key]
                    &&& final(self).values() == old(self).values().remove(*key)
                },
                None => {
                    &&& !old(self)@.contains_key(*key)
                    &&& final(self)@ == old(self)@
                    &&& final(self).values() == old(self).values()
                },
            },
    {
        match self.find(key) {
            Some(i) => {
                let ghost s0 = self.stores@;
                proof {
                    lemma_view_swap_remove(s0, i as int);
                    lemma_values_swap_remove(s0, i as int);
                    lemma_values_at(s0, i as int);
                }
                assert(self.stores@[i as int].store.storage_valid());
                let e = self.stores.swap_remove(i);
                proof {
                    let n = s0.len();
                    assert forall|j: int| 0 <= j < self.stores@.len() implies (#[trigger] self.stores@[j]).store.storage_valid() by {
                        if j == i {
                            assert(self.stores@[j] == s0[n - 1]);
                        } else {
                            assert(self.stores@[j] == s0[j]);
                        }
                    }
                }
                Some(e)
            },
            None => None,
        }
    }

    /// Files `e` back in the manager.
    pub(crate) fn put_store(&mut self, e: StoreEntry<Id>)
        requires
            old(self).well_formed(),
            !old(self)@.contains_key(e.key),
            e.store.storage_valid(),
        ensures
            final(self).well_formed(),
            final(self)@ == old(self)@.insert(e.key, e.store.stored_ids()),
            final(self).values() == old(self).values().insert(e.key, e.store.erased_view()),
    {
        proof {
            lemma_view_push(self.stores@, e);
            lemma_values_push(self.stores@, e);
        }
        self.stores.push(e);
        assert(entries_valid(self.stores@)) by {
            assert forall|j: int| 0 <= j < self.stores@.len() implies (#[trigger] self.stores@[j]).store.storage_valid() by {
                if j < old(self).stores@.len() {
                    assert(self.stores@[j] == old(self).stores@[j]);
                }
            }
        }
    }
    /// The storage of components of type `C`, if there is one.
    /// Success is decided at run time: the key is `TypeId::of::<C>()`, which no
    /// contract can name, and the storage filed under it is downcast to `C`.
    pub fn get_store<C: 'static>(&self) -> (r: Option<&ComponentStorage<Id, C>>)
        requires
            self.well_formed(),
        ensures
            r matches Some(s) ==> exists|k: TypeId| #[trigger] self@.contains_key(k) && s@.dom() == self@[k] && s.well_formed(),
            r matches Some(s) ==> exists|k: TypeId| #[trigger] self.values().contains_key(k) && erase_all(s@) == self.values()[k],
            self@.dom().is_empty() ==> r is None,
    {
        let key = type_key::<C>();
        self.get_store_by_key::<C>(&key)
    }

    /// Mutable access to the storage of components of type `C`, if there is one.
    /// Success is decided at run time: the key is `TypeId::of::<C>()`, which no
    /// contract can name, and the storage filed under it is downcast to `C`.
    pub fn get_mut_store<C: 'static>(&mut self) -> (r: Option<&mut ComponentStorage<Id, C>>)
        requires
            old(self).well_formed(),
        ensures
            match r {
                Some(s) => exists|k: TypeId| {
                    &&& #[trigger] old(self)@.contains_key(k)
                    &&& s@.dom() == old(self)@[k]
                    &&& s.well_formed()
                    &&& final(self)@ == old(self)@.insert(k, final(s)@.dom())
                    &&& final(s).well_formed() ==> final(self).well_formed()
                },
                None => final(self)@ == old(self)@ && final(self).well_formed(),
            },
            match r {
                Some(s) => exists|k: TypeId| {
                    &&& #[trigger] old(self)@.contains_key(k)
                    &&& final(self)@ == old(self)@.insert(k, final(s)@.dom())
                    &&& old(self).values().contains_key(k)
                    &&& erase_all(s@) == old(self).values()[k]
                    &&& final(self).values() == old(self).values().insert(k, erase_all(final(s)@))
                },
                None => final(self).values() == old(self).values(),
            },
            old(self)@.dom().is_empty() ==> r is None,
    {
        let key = type_key::<C>();
        self.get_mut_store_by_key::<C>(&key)
    }

    /// `entity`'s component of type `C`, if it has one.
    /// Success is decided at run time: the key is `TypeId::of::<C>()`, which no
    /// contract can name, and the storage filed under it is downcast to `C`.
    pub fn get<C: 'static>(&self, entity: &Id) -> (r: Option<&C>)
        requires
            self.well_formed(),
        ensures
            r is Some ==> exists|k: TypeId| #[trigger] holds(self@, k, *entity),
            (forall|k: TypeId| !#[trigger] holds(self@, k, *entity)) ==> r is None,
            r matches Some(c) ==> exists|k: TypeId| #[trigger] holds(self@, k, *entity) && reports(self.values(), k, *entity, *c),
    {
        let key = type_key::<C>();
        self.get_by_key::<C>(&key, entity)
    }

    /// Mutable access to `entity`'s component of type `C`, if it has one.
    /// Success is decided at run time: the key is `TypeId::of::<C>()`, which no
    /// contract can name, and the storage filed under it is downcast to `C`.
    pub fn get_mut<C: 'static>(&mut self, entity: &Id) -> (r: Option<&mut C>)
        requires
            old(self).well_formed(),
        ensures
            final(self).well_formed(),
            final(self)@ == old(self)@,
            r is Some ==> exists|k: TypeId| #[trigger] holds(old(self)@, k, *entity),
            (forall|k: TypeId| !#[trigger] holds(old(self)@, k, *entity)) ==> r is None,
            match r {
                Some(c) => exists|k: TypeId| {
                    &&& #[trigger] holds(old(self)@, k, *entity)
                    &&& reports(old(self).values(), k, *entity, *c)
                    &&& final(self).values() == old(self).values().insert(
                        k,
                        old(self).values()[k].insert(*entity, erase(*final(c))),
                    )
                },
                None => final(self).values() == old(self).values(),
            },
    {
        let key = type_key::<C>();
        self.get_mut_by_key::<C>(&key, entity)
    }

    /// Gives `entity` the component `component`, in place of any component
    /// of the same type it had; hands back nothing. (Should the storage
    /// filed under the key of `C` hold another type, which no contract here
    /// can rule out, nothing changes and `component` is handed back.)
    pub fn insert<C: 'static>(&mut self, entity: Id, component: C) -> (r: Option<C>)
        requires
            old(self).well_formed(),
        ensures
            final(self).well_formed(),
            exists|k: TypeId| #[trigger] insert_outcome(old(self)@, final(self)@, k, entity, component, r),
            exists|k: TypeId|
                #[trigger] insert_outcome(old(self)@, final(self)@, k, entity, component, r)
                    && insert_value_outcome(old(self).values(), final(self).values(), k, entity, component, r),
    {
        let key = type_key::<C>();
        let r = self.insert_by_key(&key, entity, component);
        assert(insert_outcome(old(self)@, self@, key, entity, component, r));
        r
    }

    /// Takes `entity`'s component of type `C` away, handing it back.
    pub fn remove<C: 'static>(&mut self, entity: &Id) -> (r: Option<C>)
        requires
            old(self).well_formed(),
        ensures
            final(self).well_formed(),
            exists|k: TypeId| #[trigger] remove_outcome(old(self)@, final(self)@, k, *entity, r),
            exists|k: TypeId|
                #[trigger] remove_outcome(old(self)@, final(self)@, k, *entity, r)
                    && remove_value_outcome(old(self).values(), final(self).values(), k, *entity, r),
    {
        let key = type_key::<C>();
        let r = self.remove_by_key::<C>(&key, entity);
        assert(remove_outcome(old(self)@, self@, key, *entity, r));
        r
    }

    /// Takes the whole storage of components of type `C` out of the
    /// manager. Asking for a type that has no storage is allowed.
    /// Success is decided at run time: the key is `TypeId::of::<C>()`, which no
    /// contract can name, and the storage filed under it is downcast to `C`.
    pub fn remove_store<C: 'static>(&mut self) -> (r: Option<ComponentStorage<Id, C>>)
        requires
            old(self).well_formed(),
        ensures
            final(self).well_formed(),
            match r {
                Some(s) => exists|k: TypeId| {
                    &&& #[trigger] old(self)@.contains_key(k)
                    &&& s@.dom() == old(self)@[k]
                    &&& s.well_formed()
                    &&& final(self)@ == old(self)@.remove(k)
                },
                None => final(self)@ == old(self)@,
            },
            match r {
                Some(s) => exists|k: TypeId| {
                    &&& #[trigger] old(self).values().contains_key(k)
                    &&& erase_all(s@) == old(self).values()[k]
                    &&& final(self).values() == old(self).values().remove(k)
                },
                None => final(self).values() == old(self).values(),
            },
            old(self)@.dom().is_empty() ==> r is None,
    {
        let key = type_key::<C>();
        self.remove_store_by_key::<C>(&key)
    }
}

impl<Id> Default for ComponentManager<Id> {
    fn default() -> (r: Self)
        ensures
            r@ == Map::<TypeId, Set<Id>>::empty(),
            r.values() == ValueMap::<Id>::empty(),
            vstd::std_specs::hash::obeys_key_model::<Id>() ==> r.well_formed(),
    {
        let r = ComponentManager { stores: Vec::new() };
        assert(r@ =~= Map::<TypeId, Set<Id>>::empty());
        assert(r.values() =~= ValueMap::<Id>::empty());
        r
    }
}

} // verus!
