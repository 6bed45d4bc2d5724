use std::any::TypeId;
use std::hash::Hash;
use std::marker::PhantomData;
use vstd::prelude::*;

use crate::boundary::{downcast_storage_mut, new_system_entry, type_key};
use crate::component_manager::{holds, matching, ComponentManager, ValueMap};
use crate::component_storage::{erase, erase_all, ComponentStorage};

verus! {

/// The entities one run of a system over the component types `keys` may
/// visit, in visiting order: each at most once, only entities that hold a
/// component of every one of those types, and either all such entities or
/// none (none when two of the types are the same, or when a storage filed
/// under one of the keys holds another type).
pub open spec fn visits_allowed<Id>(m: Map<TypeId, Set<Id>>, keys: Seq<TypeId>, visited: Seq<Id>) -> bool {
    &&& visited.no_duplicates()
    &&& visited.to_set().subset_of(matching(m, keys))
    &&& visited.len() == 0 || visited.to_set() == matching(m, keys)
}

/// Between `before` and `after` the same types have storages, each holding
/// components for the same entities, and only components of the types in
/// `keys` held by entities in `visited` may have changed.
pub open spec fn only_visited_changed<Id>(
    before: ValueMap<Id>,
    after: ValueMap<Id>,
    keys: Seq<TypeId>,
    visited: Seq<Id>,
) -> bool {
    &&& after.dom() == before.dom()
    &&& forall|k: TypeId| #[trigger] before.contains_key(k) ==> after[k].dom() == before[k].dom()
    &&& forall|k: TypeId, x: Id|
        before.contains_key(k) && before[k].contains_key(x) && !(keys.contains(k) && visited.contains(x))
            ==> #[trigger] after[k][x] == before[k][x]
}

/// Over a run of systems, a component that no system both takes (by type)
/// and visits (by entity) keeps its value: if each step changes only what
/// its system visited, the last components agree with the first there.
pub proof fn law_unvisited_components_unchanged<Id>(
    inputs: Seq<ValueMap<Id>>,
    keys: Seq<Seq<TypeId>>,
    visited: Seq<Seq<Id>>,
    k: TypeId,
    x: Id,
)
    requires
        inputs.len() == keys.len() + 1,
        visited.len() == keys.len(),
        forall|i: int|
            0 <= i < keys.len() ==> only_visited_changed(#[trigger] inputs[i], inputs[i + 1], keys[i], visited[i]),
        inputs[0].contains_key(k),
        inputs[0][k].contains_key(x),
        forall|i: int| 0 <= i < keys.len() ==> !(#[trigger] keys[i].contains(k) && visited[i].contains(x)),
    ensures
        inputs.last().contains_key(k),
        inputs.last()[k].contains_key(x),
        inputs.last()[k][x] == inputs[0][k][x],
    decreases keys.len(),
{
    if keys.len() > 0 {
        let n = keys.len() - 1;
        law_unvisited_components_unchanged(inputs.drop_last(), keys.drop_last(), visited.drop_last(), k, x);
        assert(inputs.drop_last().last() == inputs[n]);
        assert(only_visited_changed(inputs[n], inputs[n + 1], keys[n], visited[n]));
        assert(!(keys[n].contains(k) && visited[n].contains(x)));
        assert(inputs[n].contains_key(k));
    }
}

/// Every entity a query returns holds a component of each queried type.
pub proof fn lemma_matching_holds<Id>(m: Map<TypeId, Set<Id>>, keys: Seq<TypeId>, ids: Seq<Id>)
    requires
        ids.to_set() == matching(m, keys),
    ensures
        forall|x: Id, u: int| ids.contains(x) && 0 <= u < keys.len() ==> #[trigger] holds(m, keys[u], x),
{
    assert forall|x: Id, u: int| ids.contains(x) && 0 <= u < keys.len() implies #[trigger] holds(m, keys[u], x) by {
        assert(ids.to_set().contains(x));
        assert(keys.len() > 0 && forall|j: int| 0 <= j < keys.len() ==> m.contains_key(#[trigger] keys[j]));
        assert(m.contains_key(keys[u]));
    }
}

/// A system that takes no components is applied to nothing: no entity
/// matches an empty list of component types.
pub proof fn law_no_parameters_no_visits<Id>(m: Map<TypeId, Set<Id>>, keys: Seq<TypeId>, visited: Seq<Id>)
    requires
        keys.len() == 0,
        visits_allowed(m, keys, visited),
    ensures
        visited.len() == 0,
{
    if visited.len() > 0 {
        assert(visited.to_set().contains(visited[0]));
    }
}

/// Visiting either nothing or exactly the entities a query returned is an
/// allowed run.
pub proof fn lemma_visits<Id>(m: Map<TypeId, Set<Id>>, keys: Seq<TypeId>, ids: Seq<Id>, visited: Seq<Id>)
    requires
        ids.no_duplicates(),
        ids.to_set() == matching(m, keys),
        visited.len() == 0 || visited == ids,
    ensures
        visits_allowed(m, keys, visited),
{
    if visited.len() == 0 {
        assert(visited.to_set() =~= Set::<Id>::empty());
    }
}

/// A scheduled system, with the types of the components it takes hidden.
/// Running it may change the components' values, never which entities
/// hold which components.
pub trait OpaqueSystem<Id> {
    /// The type keys of the components the system takes, in parameter order.
    spec fn keys(&self) -> Seq<TypeId>;

    /// The system knows one key per parameter, and its closure accepts any
    /// arguments.
    spec fn system_valid(&self) -> bool;

    /// The latest run made one call of the closure for each entity in
    /// `visited`, in order; the system records, for each call, the values
    /// the call's arguments referred to (the components that entity held).
    spec fn applied(&self, visited: Seq<Id>) -> bool;

    /// The latest run's calls were made on the visited entities' own
    /// components: the `j`-th call's arguments were, type by type, the
    /// components that `before` reports for the `j`-th visited entity.
    spec fn found(&self, before: ValueMap<Id>, visited: Seq<Id>) -> bool;

    /// Runs the system once; the result lists the entities it was applied
    /// to, in order.
    fn run(&mut self, component_manager: &mut ComponentManager<Id>) -> (visited: Ghost<Seq<Id>>)
        requires
            old(self).system_valid(),
            old(component_manager).well_formed(),
        ensures
            final(self).system_valid(),
            final(self).keys() == old(self).keys(),
            final(component_manager).well_formed(),
            final(component_manager)@ == old(component_manager)@,
            visits_allowed(old(component_manager)@, old(self).keys(), visited@),
            final(self).applied(visited@),
            final(self).found(old(component_manager).values(), visited@),
            only_visited_changed(old(component_manager).values(), final(component_manager).values(), old(self).keys(), visited@),
    ;
}

/// A closure `call` that takes one component of each type in `Input`,
/// with the type keys of those types, and a record of the component values
/// it was called on in its latest run.
pub struct System<Input, F> {
    call: F,
    keys: Vec<TypeId>,
    applied: Ghost<Seq<Input>>,
    _signature: PhantomData<Input>,
}

/// What can be scheduled: a closure over mutable components, which becomes
/// a system.
pub trait IntoOpaqueSystem<Id, Input> {
    type System: OpaqueSystem<Id>;

    /// The closure accepts any arguments.
    spec fn callable(&self) -> bool;

    /// How many components the closure takes.
    spec fn arity(&self) -> nat;

    fn into_opaque_system(self) -> (r: Self::System)
        requires
            self.callable(),
        ensures
            r.system_valid(),
            r.keys().len() == self.arity(),
    ;
}

impl<Id: Copy + Eq + Hash + 'static, F: FnMut() + 'static> IntoOpaqueSystem<Id, ()> for F {
    type System = System<(), F>;

    open spec fn callable(&self) -> bool {
        forall|a: ()| call_requires(*self, a)
    }

    open spec fn arity(&self) -> nat {
        0
    }

    fn into_opaque_system(self) -> (r: System<(), F>) {
        System { call: self, keys: Vec::new(), applied: Ghost(Seq::empty()), _signature: PhantomData }
    }
}

impl<Id: Copy + Eq + Hash + 'static, F: FnMut() + 'static> OpaqueSystem<Id> for System<(), F> {
    closed spec fn keys(&self) -> Seq<TypeId> {
        self.keys@
    }

    closed spec fn system_valid(&self) -> bool {
        self.keys@.len() == 0
    }

    closed spec fn applied(&self, visited: Seq<Id>) -> bool {
        self.applied@.len() == visited.len()
    }

    closed spec fn found(&self, before: ValueMap<Id>, visited: Seq<Id>) -> bool {
        self.applied@.len() == visited.len()
    }

    /// A system over no component types matches no entity, so the closure
    /// is never called.
    fn run(&mut self, component_manager: &mut ComponentManager<Id>) -> (visited: Ghost<Seq<Id>>) {
        assert(matching(component_manager@, self.keys@) == Set::<Id>::empty());
        assert(Seq::<Id>::empty().to_set() =~= Set::<Id>::empty());
        self.applied = Ghost(Seq::empty());
        assert(only_visited_changed(component_manager.values(), component_manager.values(), self.keys@, Seq::<Id>::empty()));
        Ghost(Seq::empty())
    }
}

/// Whether `f` was called on mutable references to the values `v`, as a
/// call of the closure states.
pub open spec fn called1<T1, F: FnMut(&mut T1)>(f: F, v: (T1,)) -> bool {
    exists|a: (&mut T1,)| #[trigger] call_ensures(f, a, ()) && *a.0 == v.0
}

/// Whether `f` was called on mutable references to the values `v`, as a
/// call of the closure states.
pub open spec fn called2<T1, T2, F: FnMut(&mut T1, &mut T2)>(f: F, v: (T1, T2)) -> bool {
    exists|a: (&mut T1, &mut T2)| #[trigger] call_ensures(f, a, ()) && *a.0 == v.0 && *a.1 == v.1
}

/// Whether `f` was called on mutable references to the values `v`, as a
/// call of the closure states.
pub open spec fn called3<T1, T2, T3, F: FnMut(&mut T1, &mut T2, &mut T3)>(f: F, v: (T1, T2, T3)) -> bool {
    exists|a: (&mut T1, &mut T2, &mut T3)| #[trigger] call_ensures(f, a, ()) && *a.0 == v.0 && *a.1 == v.1 && *a.2 == v.2
}

/// Whether `f` was called on mutable references to the values `v`, as a
/// call of the closure states.
pub open spec fn called4<T1, T2, T3, T4, F: FnMut(&mut T1, &mut T2, &mut T3, &mut T4)>(f: F, v: (T1, T2, T3, T4)) -> bool {
    exists|a: (&mut T1, &mut T2, &mut T3, &mut T4)| #[trigger] call_ensures(f, a, ()) && *a.0 == v.0 && *a.1 == v.1 && *a.2 == v.2 && *a.3 == v.3
}

/// Calls `f` once for each entity of `ids` from position `start` on, in
/// order, on mutable references to that entity's components in `s1`.
fn apply1_from<Id: Copy + Eq + Hash, T1, F: FnMut(&mut T1)>(
    f: &mut F,
    s1: &mut ComponentStorage<Id, T1>,
    ids: &Vec<Id>,
    start: usize,
) -> (calls: Ghost<Seq<(T1,)>>)
    requires
        start <= ids@.len(),
        forall|a: (&mut T1,)| call_requires(*old(f), a),
        old(s1).well_formed(),
        ids@.no_duplicates(),
        forall|j: int| start <= j < ids@.len() ==> old(s1)@.contains_key(#[trigger] ids@[j]),
    ensures
        *final(f) == *old(f),
        final(s1).well_formed(),
        final(s1)@.dom() == old(s1)@.dom(),
        forall|x: Id| old(s1)@.contains_key(x) && !ids@.subrange(start as int, ids@.len() as int).contains(x) ==> #[trigger] final(s1)@[x] == old(s1)@[x],
        exists|args: Seq<(&mut T1,)>| #![trigger args.len()] args.len() == ids@.len() - start && forall|j: int|
                0 <= j < args.len() ==> {
                    &&& call_ensures(*old(f), #[trigger] args[j], ())
                    &&& *args[j].0 == old(s1)@[ids@[start + j]]
                    &&& *final(args[j].0) == final(s1)@[ids@[start + j]]
                },
        calls@.len() == ids@.len() - start,
        forall|j: int| 0 <= j < calls@.len() ==> #[trigger] calls@[j] == (old(s1)@[ids@[start + j]],),
        forall|j: int| 0 <= j < calls@.len() ==> #[trigger] called1(*old(f), calls@[j]),
    decreases ids@.len() - start,
{
    if start == ids.len() {
        assert(ids@.subrange(start as int, ids@.len() as int) =~= Seq::<Id>::empty());
        assert(Seq::<(&mut T1,)>::empty().len() == 0);
        return Ghost(Seq::empty());
    }
    let ghost f0 = *f;
    let ghost m1 = s1@;
    let ghost id = ids@[start as int];
    let ghost v = (m1[id],);
    proof {
        assert(m1.contains_key(ids@[start as int]));
    }
    match s1.get_mut(&ids[start]) {
        Some(c1) => {
            f(c1);
            proof {
                assert(exists|a: (&mut T1,)| #[trigger] call_ensures(f0, a, ()) && *a.0 == v.0 && *final(a.0) == *c1);
                assert(called1(f0, v));
            }
        },
        None => {},
    }
    let ghost mid1 = s1@;
    proof {
        assert(exists|a: (&mut T1,)| #[trigger] call_ensures(f0, a, ()) && *a.0 == v.0 && *final(a.0) == mid1[id]);
        assert forall|j: int| start + 1 <= j < ids@.len() implies mid1.contains_key(#[trigger] ids@[j]) by {}
    }
    let rest = apply1_from(f, s1, ids, start + 1);
    proof {
        let tail = ids@.subrange(start + 1, ids@.len() as int);
        assert(ids@.subrange(start as int, ids@.len() as int) =~= seq![id] + tail);
        assert(!tail.contains(id)) by {
            if tail.contains(id) {
                let k = choose|k: int| 0 <= k < tail.len() && tail[k] == id;
                assert(ids@[start + 1 + k] == id);
            }
        }
        assert forall|x: Id| !ids@.subrange(start as int, ids@.len() as int).contains(x) implies !tail.contains(x) && x != id by {
            if tail.contains(x) {
                let k = choose|k: int| 0 <= k < tail.len() && tail[k] == x;
                assert(ids@.subrange(start as int, ids@.len() as int)[k + 1] == x);
            }
            assert(ids@.subrange(start as int, ids@.len() as int)[0] == id);
        }
        assert(s1@[id] == mid1[id]);
        let a = choose|a: (&mut T1,)| #[trigger] call_ensures(f0, a, ()) && *a.0 == v.0 && *final(a.0) == mid1[id];
        let rargs = choose|args: Seq<(&mut T1,)>| #![trigger args.len()] args.len() == ids@.len() - (start + 1) && forall|j: int|
                0 <= j < args.len() ==> {
                    &&& call_ensures(f0, #[trigger] args[j], ())
                    &&& *args[j].0 == mid1[ids@[start + 1 + j]]
                    &&& *final(args[j].0) == s1@[ids@[start + 1 + j]]
                };
        let args = seq![a] + rargs;
        assert(args.len() == ids@.len() - start);
        assert forall|j: int| 0 <= j < args.len() implies {
            &&& call_ensures(f0, #[trigger] args[j], ())
            &&& *args[j].0 == m1[ids@[start + j]]
            &&& *final(args[j].0) == s1@[ids@[start + j]]
        } by {
            if j > 0 {
                assert(args[j] == rargs[j - 1]);
                assert(ids@[start + j] != id);
            }
        }
    }
    Ghost(seq![v] + rest@)
}

/// Calls `f` once for each entity of `ids`, in order, on mutable references
/// to that entity's components in `s1`: the `j`-th call finds the
/// components the `j`-th entity held before, and leaves behind the values
/// that entity holds afterwards. The components of other entities, and which
/// entities hold components, do not change. The result records the values
/// each call found, in order.
pub fn apply1<Id: Copy + Eq + Hash, T1, F: FnMut(&mut T1)>(
    f: &mut F,
    s1: &mut ComponentStorage<Id, T1>,
    ids: &Vec<Id>,
) -> (calls: Ghost<Seq<(T1,)>>)
    requires
        forall|a: (&mut T1,)| call_requires(*old(f), a),
        old(s1).well_formed(),
        ids@.no_duplicates(),
        forall|j: int| 0 <= j < ids@.len() ==> old(s1)@.contains_key(#[trigger] ids@[j]),
    ensures
        *final(f) == *old(f),
        final(s1).well_formed(),
        final(s1)@.dom() == old(s1)@.dom(),
        forall|x: Id| old(s1)@.contains_key(x) && !ids@.contains(x) ==> #[trigger] final(s1)@[x] == old(s1)@[x],
        exists|args: Seq<(&mut T1,)>| #![trigger args.len()] args.len() == ids@.len() && forall|j: int|
                0 <= j < args.len() ==> {
                    &&& call_ensures(*old(f), #[trigger] args[j], ())
                    &&& *args[j].0 == old(s1)@[ids@[j]]
                    &&& *final(args[j].0) == final(s1)@[ids@[j]]
                },
        calls@.len() == ids@.len(),
        forall|j: int| 0 <= j < ids@.len() ==> #[trigger] calls@[j] == (old(s1)@[ids@[j]],),
        forall|j: int| 0 <= j < ids@.len() ==> #[trigger] called1(*old(f), calls@[j]),
{
    assert(ids@.subrange(0, ids@.len() as int) =~= ids@);
    let ghost f0 = *f;
    let ghost m1 = s1@;
    let calls = apply1_from(f, s1, ids, 0);
    proof {
        let args = choose|args: Seq<(&mut T1,)>| #![trigger args.len()] args.len() == ids@.len() - 0 && forall|j: int|
                0 <= j < args.len() ==> {
                    &&& call_ensures(f0, #[trigger] args[j], ())
                    &&& *args[j].0 == m1[ids@[0 + j]]
                    &&& *final(args[j].0) == s1@[ids@[0 + j]]
                };
        assert(args.len() == ids@.len());
        assert forall|j: int| 0 <= j < args.len() implies {
            &&& call_ensures(f0, #[trigger] args[j], ())
            &&& *args[j].0 == m1[ids@[j]]
            &&& *final(args[j].0) == s1@[ids@[j]]
        } by {
            assert(0 + j == j);
        }
    }
    calls
}

/// Calls `f` once for each entity of `ids` from position `start` on, in
/// order, on mutable references to that entity's components in `s1`, `s2`.
fn apply2_from<Id: Copy + Eq + Hash, T1, T2, F: FnMut(&mut T1, &mut T2)>(
    f: &mut F,
    s1: &mut ComponentStorage<Id, T1>,
    s2: &mut ComponentStorage<Id, T2>,
    ids: &Vec<Id>,
    start: usize,
) -> (calls: Ghost<Seq<(T1, T2)>>)
    requires
        start <= ids@.len(),
        forall|a: (&mut T1, &mut T2)| call_requires(*old(f), a),
        old(s1).well_formed(),
        old(s2).well_formed(),
        ids@.no_duplicates(),
        forall|j: int| start <= j < ids@.len() ==> old(s1)@.contains_key(#[trigger] ids@[j]) && old(s2)@.contains_key(ids@[j]),
    ensures
        *final(f) == *old(f),
        final(s1).well_formed(),
        final(s1)@.dom() == old(s1)@.dom(),
        forall|x: Id| old(s1)@.contains_key(x) && !ids@.subrange(start as int, ids@.len() as int).contains(x) ==> #[trigger] final(s1)@[x] == old(s1)@[x],
        final(s2).well_formed(),
        final(s2)@.dom() == old(s2)@.dom(),
        forall|x: Id| old(s2)@.contains_key(x) && !ids@.subrange(start as int, ids@.len() as int).contains(x) ==> #[trigger] final(s2)@[x] == old(s2)@[x],
        exists|args: Seq<(&mut T1, &mut T2)>| #![trigger args.len()] args.len() == ids@.len() - start && forall|j: int|
                0 <= j < args.len() ==> {
                    &&& call_ensures(*old(f), #[trigger] args[j], ())
                    &&& *args[j].0 == old(s1)@[ids@[start + j]]
                    &&& *final(args[j].0) == final(s1)@[ids@[start + j]]
                    &&& *args[j].1 == old(s2)@[ids@[start + j]]
                    &&& *final(args[j].1) == final(s2)@[ids@[start + j]]
                },
        calls@.len() == ids@.len() - start,
        forall|j: int| 0 <= j < calls@.len() ==> #[trigger] calls@[j] == (old(s1)@[ids@[start + j]], old(s2)@[ids@[start + j]]),
        forall|j: int| 0 <= j < calls@.len() ==> #[trigger] called2(*old(f), calls@[j]),
    decreases ids@.len() - start,
{
    if start == ids.len() {
        assert(ids@.subrange(start as int, ids@.len() as int) =~= Seq::<Id>::empty());
        assert(Seq::<(&mut T1, &mut T2)>::empty().len() == 0);
        return Ghost(Seq::empty());
    }
    let ghost f0 = *f;
    let ghost m1 = s1@;
    let ghost m2 = s2@;
    let ghost id = ids@[start as int];
    let ghost v = (m1[id], m2[id]);
    proof {
        assert(m1.contains_key(ids@[start as int]));
    }
    match s1.get_mut(&ids[start]) {
        Some(c1) => {
            match s2.get_mut(&ids[start]) {
                Some(c2) => {
                    f(c1, c2);
                    proof {
                        assert(exists|a: (&mut T1, &mut T2)| #[trigger] call_ensures(f0, a, ()) && *a.0 == v.0 && *final(a.0) == *c1 && *a.1 == v.1 && *final(a.1) == *c2);
                        assert(called2(f0, v));
                    }
                },
                None => {},
            }
        },
        None => {},
    }
    let ghost mid1 = s1@;
    let ghost mid2 = s2@;
    proof {
        assert(exists|a: (&mut T1, &mut T2)| #[trigger] call_ensures(f0, a, ()) && *a.0 == v.0 && *final(a.0) == mid1[id] && *a.1 == v.1 && *final(a.1) == mid2[id]);
        assert forall|j: int| start + 1 <= j < ids@.len() implies mid1.contains_key(#[trigger] ids@[j]) && mid2.contains_key(ids@[j]) by {}
    }
    let rest = apply2_from(f, s1, s2, ids, start + 1);
    proof {
        let tail = ids@.subrange(start + 1, ids@.len() as int);
        assert(ids@.subrange(start as int, ids@.len() as int) =~= seq![id] + tail);
        assert(!tail.contains(id)) by {
            if tail.contains(id) {
                let k = choose|k: int| 0 <= k < tail.len() && tail[k] == id;
                assert(ids@[start + 1 + k] == id);
            }
        }
        assert forall|x: Id| !ids@.subrange(start as int, ids@.len() as int).contains(x) implies !tail.contains(x) && x != id by {
            if tail.contains(x) {
                let k = choose|k: int| 0 <= k < tail.len() && tail[k] == x;
                assert(ids@.subrange(start as int, ids@.len() as int)[k + 1] == x);
            }
            assert(ids@.subrange(start as int, ids@.len() as int)[0] == id);
        }
        assert(s1@[id] == mid1[id]);
        assert(s2@[id] == mid2[id]);
        let a = choose|a: (&mut T1, &mut T2)| #[trigger] call_ensures(f0, a, ()) && *a.0 == v.0 && *final(a.0) == mid1[id] && *a.1 == v.1 && *final(a.1) == mid2[id];
        let rargs = choose|args: Seq<(&mut T1, &mut T2)>| #![trigger args.len()] args.len() == ids@.len() - (start + 1) && forall|j: int|
                0 <= j < args.len() ==> {
                    &&& call_ensures(f0, #[trigger] args[j], ())
                    &&& *args[j].0 == mid1[ids@[start + 1 + j]]
                    &&& *final(args[j].0) == s1@[ids@[start + 1 + j]]
                    &&& *args[j].1 == mid2[ids@[start + 1 + j]]
                    &&& *final(args[j].1) == s2@[ids@[start + 1 + j]]
                };
        let args = seq![a] + rargs;
        assert(args.len() == ids@.len() - start);
        assert forall|j: int| 0 <= j < args.len() implies {
            &&& call_ensures(f0, #[trigger] args[j], ())
            &&& *args[j].0 == m1[ids@[start + j]]
            &&& *final(args[j].0) == s1@[ids@[start + j]]
            &&& *args[j].1 == m2[ids@[start + j]]
            &&& *final(args[j].1) == s2@[ids@[start + j]]
        } by {
            if j > 0 {
                assert(args[j] == rargs[j - 1]);
                assert(ids@[start + j] != id);
            }
        }
    }
    Ghost(seq![v] + rest@)
}

/// Calls `f` once for each entity of `ids`, in order, on mutable references
/// to that entity's components in `s1`, `s2`: the `j`-th call finds the
/// components the `j`-th entity held before, and leaves behind the values
/// that entity holds afterwards. The components of other entities, and which
/// entities hold components, do not change. The result records the values
/// each call found, in order.
pub fn apply2<Id: Copy + Eq + Hash, T1, T2, F: FnMut(&mut T1, &mut T2)>(
    f: &mut F,
    s1: &mut ComponentStorage<Id, T1>,
    s2: &mut ComponentStorage<Id, T2>,
    ids: &Vec<Id>,
) -> (calls: Ghost<Seq<(T1, T2)>>)
    requires
        forall|a: (&mut T1, &mut T2)| call_requires(*old(f), a),
        old(s1).well_formed(),
        old(s2).well_formed(),
        ids@.no_duplicates(),
        forall|j: int| 0 <= j < ids@.len() ==> old(s1)@.contains_key(#[trigger] ids@[j]) && old(s2)@.contains_key(ids@[j]),
    ensures
        *final(f) == *old(f),
        final(s1).well_formed(),
        final(s1)@.dom() == old(s1)@.dom(),
        forall|x: Id| old(s1)@.contains_key(x) && !ids@.contains(x) ==> #[trigger] final(s1)@[x] == old(s1)@[x],
        final(s2).well_formed(),
        final(s2)@.dom() == old(s2)@.dom(),
        forall|x: Id| old(s2)@.contains_key(x) && !ids@.contains(x) ==> #[trigger] final(s2)@[x] == old(s2)@[x],
        exists|args: Seq<(&mut T1, &mut T2)>| #![trigger args.len()] args.len() == ids@.len() && forall|j: int|
                0 <= j < args.len() ==> {
                    &&& call_ensures(*old(f), #[trigger] args[j], ())
                    &&& *args[j].0 == old(s1)@[ids@[j]]
                    &&& *final(args[j].0) == final(s1)@[ids@[j]]
                    &&& *args[j].1 == old(s2)@[ids@[j]]
                    &&& *final(args[j].1) == final(s2)@[ids@[j]]
                },
        calls@.len() == ids@.len(),
        forall|j: int| 0 <= j < ids@.len() ==> #[trigger] calls@[j] == (old(s1)@[ids@[j]], old(s2)@[ids@[j]]),
        forall|j: int| 0 <= j < ids@.len() ==> #[trigger] called2(*old(f), calls@[j]),
{
    assert(ids@.subrange(0, ids@.len() as int) =~= ids@);
    let ghost f0 = *f;
    let ghost m1 = s1@;
    let ghost m2 = s2@;
    let calls = apply2_from(f, s1, s2, ids, 0);
    proof {
        let args = choose|args: Seq<(&mut T1, &mut T2)>| #![trigger args.len()] args.len() == ids@.len() - 0 && forall|j: int|
                0 <= j < args.len() ==> {
                    &&& call_ensures(f0, #[trigger] args[j], ())
                    &&& *args[j].0 == m1[ids@[0 + j]]
                    &&& *final(args[j].0) == s1@[ids@[0 + j]]
                    &&& *args[j].1 == m2[ids@[0 + j]]
                    &&& *final(args[j].1) == s2@[ids@[0 + j]]
                };
        assert(args.len() == ids@.len());
        assert forall|j: int| 0 <= j < args.len() implies {
            &&& call_ensures(f0, #[trigger] args[j], ())
            &&& *args[j].0 == m1[ids@[j]]
            &&& *final(args[j].0) == s1@[ids@[j]]
            &&& *args[j].1 == m2[ids@[j]]
            &&& *final(args[j].1) == s2@[ids@[j]]
        } by {
            assert(0 + j == j);
        }
    }
    calls
}

/// Calls `f` once for each entity of `ids` from position `start` on, in
/// order, on mutable references to that entity's components in `s1`, `s2`, `s3`.
fn apply3_from<Id: Copy + Eq + Hash, T1, T2, T3, F: FnMut(&mut T1, &mut T2, &mut T3)>(
    f: &mut F,
    s1: &mut ComponentStorage<Id, T1>,
    s2: &mut ComponentStorage<Id, T2>,
    s3: &mut ComponentStorage<Id, T3>,
    ids: &Vec<Id>,
    start: usize,
) -> (calls: Ghost<Seq<(T1, T2, T3)>>)
    requires
        start <= ids@.len(),
        forall|a: (&mut T1, &mut T2, &mut T3)| call_requires(*old(f), a),
        old(s1).well_formed(),
        old(s2).well_formed(),
        old(s3).well_formed(),
        ids@.no_duplicates(),
        forall|j: int| start <= j < ids@.len() ==> old(s1)@.contains_key(#[trigger] ids@[j]) && old(s2)@.contains_key(ids@[j]) && old(s3)@.contains_key(ids@[j]),
    ensures
        *final(f) == *old(f),
        final(s1).well_formed(),
        final(s1)@.dom() == old(s1)@.dom(),
        forall|x: Id| old(s1)@.contains_key(x) && !ids@.subrange(start as int, ids@.len() as int).contains(x) ==> #[trigger] final(s1)@[x] == old(s1)@[x],
        final(s2).well_formed(),
        final(s2)@.dom() == old(s2)@.dom(),
        forall|x: Id| old(s2)@.contains_key(x) && !ids@.subrange(start as int, ids@.len() as int).contains(x) ==> #[trigger] final(s2)@[x] == old(s2)@[x],
        final(s3).well_formed(),
        final(s3)@.dom() == old(s3)@.dom(),
        forall|x: Id| old(s3)@.contains_key(x) && !ids@.subrange(start as int, ids@.len() as int).contains(x) ==> #[trigger] final(s3)@[x] == old(s3)@[x],
        exists|args: Seq<(&mut T1, &mut T2, &mut T3)>| #![trigger args.len()] args.len() == ids@.len() - start && forall|j: int|
                0 <= j < args.len() ==> {
                    &&& call_ensures(*old(f), #[trigger] args[j], ())
                    &&& *args[j].0 == old(s1)@[ids@[start + j]]
                    &&& *final(args[j].0) == final(s1)@[ids@[start + j]]
                    &&& *args[j].1 == old(s2)@[ids@[start + j]]
                    &&& *final(args[j].1) == final(s2)@[ids@[start + j]]
                    &&& *args[j].2 == old(s3)@[ids@[start + j]]
                    &&& *final(args[j].2) == final(s3)@[ids@[start + j]]
                },
        calls@.len() == ids@.len() - start,
        forall|j: int| 0 <= j < calls@.len() ==> #[trigger] calls@[j] == (old(s1)@[ids@[start + j]], old(s2)@[ids@[start + j]], old(s3)@[ids@[start + j]]),
        forall|j: int| 0 <= j < calls@.len() ==> #[trigger] called3(*old(f), calls@[j]),
    decreases ids@.len() - start,
{
    if start == ids.len() {
        assert(ids@.subrange(start as int, ids@.len() as int) =~= Seq::<Id>::empty());
        assert(Seq::<(&mut T1, &mut T2, &mut T3)>::empty().len() == 0);
        return Ghost(Seq::empty());
    }
    let ghost f0 = *f;
    let ghost m1 = s1@;
    let ghost m2 = s2@;
    let ghost m3 = s3@;
    let ghost id = ids@[start as int];
    let ghost v = (m1[id], m2[id], m3[id]);
    proof {
        assert(m1.contains_key(ids@[start as int]));
    }
    match s1.get_mut(&ids[start]) {
        Some(c1) => {
            match s2.get_mut(&ids[start]) {
                Some(c2) => {
                    match s3.get_mut(&ids[start]) {
                        Some(c3) => {
                            f(c1, c2, c3);
                            proof {
                                assert(exists|a: (&mut T1, &mut T2, &mut T3)| #[trigger] call_ensures(f0, a, ()) && *a.0 == v.0 && *final(a.0) == *c1 && *a.1 == v.1 && *final(a.1) == *c2 && *a.2 == v.2 && *final(a.2) == *c3);
                                assert(called3(f0, v));
                            }
                        },
                        None => {},
                    }
                },
                None => {},
            }
        },
        None => {},
    }
    let ghost mid1 = s1@;
    let ghost mid2 = s2@;
    let ghost mid3 = s3@;
    proof {
        assert(exists|a: (&mut T1, &mut T2, &mut T3)| #[trigger] call_ensures(f0, a, ()) && *a.0 == v.0 && *final(a.0) == mid1[id] && *a.1 == v.1 && *final(a.1) == mid2[id] && *a.2 == v.2 && *final(a.2) == mid3[id]);
        assert forall|j: int| start + 1 <= j < ids@.len() implies mid1.contains_key(#[trigger] ids@[j]) && mid2.contains_key(ids@[j]) && mid3.contains_key(ids@[j]) by {}
    }
    let rest = apply3_from(f, s1, s2, s3, ids, start + 1);
    proof {
        let tail = ids@.subrange(start + 1, ids@.len() as int);
        assert(ids@.subrange(start as int, ids@.len() as int) =~= seq![id] + tail);
        assert(!tail.contains(id)) by {
            if tail.contains(id) {
                let k = choose|k: int| 0 <= k < tail.len() && tail[k] == id;
                assert(ids@[start + 1 + k] == id);
            }
        }
        assert forall|x: Id| !ids@.subrange(start as int, ids@.len() as int).contains(x) implies !tail.contains(x) && x != id by {
            if tail.contains(x) {
                let k = choose|k: int| 0 <= k < tail.len() && tail[k] == x;
                assert(ids@.subrange(start as int, ids@.len() as int)[k + 1] == x);
            }
            assert(ids@.subrange(start as int, ids@.len() as int)[0] == id);
        }
        assert(s1@[id] == mid1[id]);
        assert(s2@[id] == mid2[id]);
        assert(s3@[id] == mid3[id]);
        let a = choose|a: (&mut T1, &mut T2, &mut T3)| #[trigger] call_ensures(f0, a, ()) && *a.0 == v.0 && *final(a.0) == mid1[id] && *a.1 == v.1 && *final(a.1) == mid2[id] && *a.2 == v.2 && *final(a.2) == mid3[id];
        let rargs = choose|args: Seq<(&mut T1, &mut T2, &mut T3)>| #![trigger args.len()] args.len() == ids@.len() - (start + 1) && forall|j: int|
                0 <= j < args.len() ==> {
                    &&& call_ensures(f0, #[trigger] args[j], ())
                    &&& *args[j].0 == mid1[ids@[start + 1 + j]]
                    &&& *final(args[j].0) == s1@[ids@[start + 1 + j]]
                    &&& *args[j].1 == mid2[ids@[start + 1 + j]]
                    &&& *final(args[j].1) == s2@[ids@[start + 1 + j]]
                    &&& *args[j].2 == mid3[ids@[start + 1 + j]]
                    &&& *final(args[j].2) == s3@[ids@[start + 1 + j]]
                };
        let args = seq![a] + rargs;
        assert(args.len() == ids@.len() - start);
        assert forall|j: int| 0 <= j < args.len() implies {
            &&& call_ensures(f0, #[trigger] args[j], ())
            &&& *args[j].0 == m1[ids@[start + j]]
            &&& *final(args[j].0) == s1@[ids@[start + j]]
            &&& *args[j].1 == m2[ids@[start + j]]
            &&& *final(args[j].1) == s2@[ids@[start + j]]
            &&& *args[j].2 == m3[ids@[start + j]]
            &&& *final(args[j].2) == s3@[ids@[start + j]]
        } by {
            if j > 0 {
                assert(args[j] == rargs[j - 1]);
                assert(ids@[start + j] != id);
            }
        }
    }
    Ghost(seq![v] + rest@)
}

/// Calls `f` once for each entity of `ids`, in order, on mutable references
/// to that entity's components in `s1`, `s2`, `s3`: the `j`-th call finds the
/// components the `j`-th entity held before, and leaves behind the values
/// that entity holds afterwards. The components of other entities, and which
/// entities hold components, do not change. The result records the values
/// each call found, in order.
pub fn apply3<Id: Copy + Eq + Hash, T1, T2, T3, F: FnMut(&mut T1, &mut T2, &mut T3)>(
    f: &mut F,
    s1: &mut ComponentStorage<Id, T1>,
    s2: &mut ComponentStorage<Id, T2>,
    s3: &mut ComponentStorage<Id, T3>,
    ids: &Vec<Id>,
) -> (calls: Ghost<Seq<(T1, T2, T3)>>)
    requires
        forall|a: (&mut T1, &mut T2, &mut T3)| call_requires(*old(f), a),
        old(s1).well_formed(),
        old(s2).well_formed(),
        old(s3).well_formed(),
        ids@.no_duplicates(),
        forall|j: int| 0 <= j < ids@.len() ==> old(s1)@.contains_key(#[trigger] ids@[j]) && old(s2)@.contains_key(ids@[j]) && old(s3)@.contains_key(ids@[j]),
    ensures
        *final(f) == *old(f),
        final(s1).well_formed(),
        final(s1)@.dom() == old(s1)@.dom(),
        forall|x: Id| old(s1)@.contains_key(x) && !ids@.contains(x) ==> #[trigger] final(s1)@[x] == old(s1)@[x],
        final(s2).well_formed(),
        final(s2)@.dom() == old(s2)@.dom(),
        forall|x: Id| old(s2)@.contains_key(x) && !ids@.contains(x) ==> #[trigger] final(s2)@[x] == old(s2)@[x],
        final(s3).well_formed(),
        final(s3)@.dom() == old(s3)@.dom(),
        forall|x: Id| old(s3)@.contains_key(x) && !ids@.contains(x) ==> #[trigger] final(s3)@[x] == old(s3)@[x],
        exists|args: Seq<(&mut T1, &mut T2, &mut T3)>| #![trigger args.len()] args.len() == ids@.len() && forall|j: int|
                0 <= j < args.len() ==> {
                    &&& call_ensures(*old(f), #[trigger] args[j], ())
                    &&& *args[j].0 == old(s1)@[ids@[j]]
                    &&& *final(args[j].0) == final(s1)@[ids@[j]]
                    &&& *args[j].1 == old(s2)@[ids@[j]]
                    &&& *final(args[j].1) == final(s2)@[ids@[j]]
                    &&& *args[j].2 == old(s3)@[ids@[j]]
                    &&& *final(args[j].2) == final(s3)@[ids@[j]]
                },
        calls@.len() == ids@.len(),
        forall|j: int| 0 <= j < ids@.len() ==> #[trigger] calls@[j] == (old(s1)@[ids@[j]], old(s2)@[ids@[j]], old(s3)@[ids@[j]]),
        forall|j: int| 0 <= j < ids@.len() ==> #[trigger] called3(*old(f), calls@[j]),
{
    assert(ids@.subrange(0, ids@.len() as int) =~= ids@);
    let ghost f0 = *f;
    let ghost m1 = s1@;
    let ghost m2 = s2@;
    let ghost m3 = s3@;
    let calls = apply3_from(f, s1, s2, s3, ids, 0);
    proof {
        let args = choose|args: Seq<(&mut T1, &mut T2, &mut T3)>| #![trigger args.len()] args.len() == ids@.len() - 0 && forall|j: int|
                0 <= j < args.len() ==> {
                    &&& call_ensures(f0, #[trigger] args[j], ())
                    &&& *args[j].0 == m1[ids@[0 + j]]
                    &&& *final(args[j].0) == s1@[ids@[0 + j]]
                    &&& *args[j].1 == m2[ids@[0 + j]]
                    &&& *final(args[j].1) == s2@[ids@[0 + j]]
                    &&& *args[j].2 == m3[ids@[0 + j]]
                    &&& *final(args[j].2) == s3@[ids@[0 + j]]
                };
        assert(args.len() == ids@.len());
        assert forall|j: int| 0 <= j < args.len() implies {
            &&& call_ensures(f0, #[trigger] args[j], ())
            &&& *args[j].0 == m1[ids@[j]]
            &&& *final(args[j].0) == s1@[ids@[j]]
            &&& *args[j].1 == m2[ids@[j]]
            &&& *final(args[j].1) == s2@[ids@[j]]
            &&& *args[j].2 == m3[ids@[j]]
            &&& *final(args[j].2) == s3@[ids@[j]]
        } by {
            assert(0 + j == j);
        }
    }
    calls
}

/// Calls `f` once for each entity of `ids` from position `start` on, in
/// order, on mutable references to that entity's components in `s1`, `s2`, `s3`, `s4`.
fn apply4_from<Id: Copy + Eq + Hash, T1, T2, T3, T4, F: FnMut(&mut T1, &mut T2, &mut T3, &mut T4)>(
    f: &mut F,
    s1: &mut ComponentStorage<Id, T1>,
    s2: &mut ComponentStorage<Id, T2>,
    s3: &mut ComponentStorage<Id, T3>,
    s4: &mut ComponentStorage<Id, T4>,
    ids: &Vec<Id>,
    start: usize,
) -> (calls: Ghost<Seq<(T1, T2, T3, T4)>>)
    requires
        start <= ids@.len(),
        forall|a: (&mut T1, &mut T2, &mut T3, &mut T4)| call_requires(*old(f), a),
        old(s1).well_formed(),
        old(s2).well_formed(),
        old(s3).well_formed(),
        old(s4).well_formed(),
        ids@.no_duplicates(),
        forall|j: int| start <= j < ids@.len() ==> old(s1)@.contains_key(#[trigger] ids@[j]) && old(s2)@.contains_key(ids@[j]) && old(s3)@.contains_key(ids@[j]) && old(s4)@.contains_key(ids@[j]),
    ensures
        *final(f) == *old(f),
        final(s1).well_formed(),
        final(s1)@.dom() == old(s1)@.dom(),
        forall|x: Id| old(s1)@.contains_key(x) && !ids@.subrange(start as int, ids@.len() as int).contains(x) ==> #[trigger] final(s1)@[x] == old(s1)@[x],
        final(s2).well_formed(),
        final(s2)@.dom() == old(s2)@.dom(),
        forall|x: Id| old(s2)@.contains_key(x) && !ids@.subrange(start as int, ids@.len() as int).contains(x) ==> #[trigger] final(s2)@[x] == old(s2)@[x],
        final(s3).well_formed(),
        final(s3)@.dom() == old(s3)@.dom(),
        forall|x: Id| old(s3)@.contains_key(x) && !ids@.subrange(start as int, ids@.len() as int).contains(x) ==> #[trigger] final(s3)@[x] == old(s3)@[x],
        final(s4).well_formed(),
        final(s4)@.dom() == old(s4)@.dom(),
        forall|x: Id| old(s4)@.contains_key(x) && !ids@.subrange(start as int, ids@.len() as int).contains(x) ==> #[trigger] final(s4)@[x] == old(s4)@[x],
        exists|args: Seq<(&mut T1, &mut T2, &mut T3, &mut T4)>| #![trigger args.len()] args.len() == ids@.len() - start && forall|j: int|
                0 <= j < args.len() ==> {
                    &&& call_ensures(*old(f), #[trigger] args[j], ())
                    &&& *args[j].0 == old(s1)@[ids@[start + j]]
                    &&& *final(args[j].0) == final(s1)@[ids@[start + j]]
                    &&& *args[j].1 == old(s2)@[ids@[start + j]]
                    &&& *final(args[j].1) == final(s2)@[ids@[start + j]]
                    &&& *args[j].2 == old(s3)@[ids@[start + j]]
                    &&& *final(args[j].2) == final(s3)@[ids@[start + j]]
                    &&& *args[j].3 == old(s4)@[ids@[start + j]]
                    &&& *final(args[j].3) == final(s4)@[ids@[start + j]]
                },
        calls@.len() == ids@.len() - start,
        forall|j: int| 0 <= j < calls@.len() ==> #[trigger] calls@[j] == (old(s1)@[ids@[start + j]], old(s2)@[ids@[start + j]], old(s3)@[ids@[start + j]], old(s4)@[ids@[start + j]]),
        forall|j: int| 0 <= j < calls@.len() ==> #[trigger] called4(*old(f), calls@[j]),
    decreases ids@.len() - start,
{
    if start == ids.len() {
        assert(ids@.subrange(start as int, ids@.len() as int) =~= Seq::<Id>::empty());
        assert(Seq::<(&mut T1, &mut T2, &mut T3, &mut T4)>::empty().len() == 0);
        return Ghost(Seq::empty());
    }
    let ghost f0 = *f;
    let ghost m1 = s1@;
    let ghost m2 = s2@;
    let ghost m3 = s3@;
    let ghost m4 = s4@;
    let ghost id = ids@[start as int];
    let ghost v = (m1[id], m2[id], m3[id], m4[id]);
    proof {
        assert(m1.contains_key(ids@[start as int]));
    }
    match s1.get_mut(&ids[start]) {
        Some(c1) => {
            match s2.get_mut(&ids[start]) {
                Some(c2) => {
                    match s3.get_mut(&ids[start]) {
                        Some(c3) => {
                            match s4.get_mut(&ids[start]) {
                                Some(c4) => {
                                    f(c1, c2, c3, c4);
                                    proof {
                                        assert(exists|a: (&mut T1, &mut T2, &mut T3, &mut T4)| #[trigger] call_ensures(f0, a, ()) && *a.0 == v.0 && *final(a.0) == *c1 && *a.1 == v.1 && *final(a.1) == *c2 && *a.2 == v.2 && *final(a.2) == *c3 && *a.3 == v.3 && *final(a.3) == *c4);
                                        assert(called4(f0, v));
                                    }
                                },
                                None => {},
                            }
                        },
                        None => {},
                    }
                },
                None => {},
            }
        },
        None => {},
    }
    let ghost mid1 = s1@;
    let ghost mid2 = s2@;
    let ghost mid3 = s3@;
    let ghost mid4 = s4@;
    proof {
        assert(exists|a: (&mut T1, &mut T2, &mut T3, &mut T4)| #[trigger] call_ensures(f0, a, ()) && *a.0 == v.0 && *final(a.0) == mid1[id] && *a.1 == v.1 && *final(a.1) == mid2[id] && *a.2 == v.2 && *final(a.2) == mid3[id] && *a.3 == v.3 && *final(a.3) == mid4[id]);
        assert forall|j: int| start + 1 <= j < ids@.len() implies mid1.contains_key(#[trigger] ids@[j]) && mid2.contains_key(ids@[j]) && mid3.contains_key(ids@[j]) && mid4.contains_key(ids@[j]) by {}
    }
    let rest = apply4_from(f, s1, s2, s3, s4, ids, start + 1);
    proof {
        let tail = ids@.subrange(start + 1, ids@.len() as int);
        assert(ids@.subrange(start as int, ids@.len() as int) =~= seq![id] + tail);
        assert(!tail.contains(id)) by {
            if tail.contains(id) {
                let k = choose|k: int| 0 <= k < tail.len() && tail[k] == id;
                assert(ids@[start + 1 + k] == id);
            }
        }
        assert forall|x: Id| !ids@.subrange(start as int, ids@.len() as int).contains(x) implies !tail.contains(x) && x != id by {
            if tail.contains(x) {
                let k = choose|k: int| 0 <= k < tail.len() && tail[k] == x;
                assert(ids@.subrange(start as int, ids@.len() as int)[k + 1] == x);
            }
            assert(ids@.subrange(start as int, ids@.len() as int)[0] == id);
        }
        assert(s1@[id] == mid1[id]);
        assert(s2@[id] == mid2[id]);
        assert(s3@[id] == mid3[id]);
        assert(s4@[id] == mid4[id]);
        let a = choose|a: (&mut T1, &mut T2, &mut T3, &mut T4)| #[trigger] call_ensures(f0, a, ()) && *a.0 == v.0 && *final(a.0) == mid1[id] && *a.1 == v.1 && *final(a.1) == mid2[id] && *a.2 == v.2 && *final(a.2) == mid3[id] && *a.3 == v.3 && *final(a.3) == mid4[id];
        let rargs = choose|args: Seq<(&mut T1, &mut T2, &mut T3, &mut T4)>| #![trigger args.len()] args.len() == ids@.len() - (start + 1) && forall|j: int|
                0 <= j < args.len() ==> {
                    &&& call_ensures(f0, #[trigger] args[j], ())
                    &&& *args[j].0 == mid1[ids@[start + 1 + j]]
                    &&& *final(args[j].0) == s1@[ids@[start + 1 + j]]
                    &&& *args[j].1 == mid2[ids@[start + 1 + j]]
                    &&& *final(args[j].1) == s2@[ids@[start + 1 + j]]
                    &&& *args[j].2 == mid3[ids@[start + 1 + j]]
                    &&& *final(args[j].2) == s3@[ids@[start + 1 + j]]
                    &&& *args[j].3 == mid4[ids@[start + 1 + j]]
                    &&& *final(args[j].3) == s4@[ids@[start + 1 + j]]
                };
        let args = seq![a] + rargs;
        assert(args.len() == ids@.len() - start);
        assert forall|j: int| 0 <= j < args.len() implies {
            &&& call_ensures(f0, #[trigger] args[j], ())
            &&& *args[j].0 == m1[ids@[start + j]]
            &&& *final(args[j].0) == s1@[ids@[start + j]]
            &&& *args[j].1 == m2[ids@[start + j]]
            &&& *final(args[j].1) == s2@[ids@[start + j]]
            &&& *args[j].2 == m3[ids@[start + j]]
            &&& *final(args[j].2) == s3@[ids@[start + j]]
            &&& *args[j].3 == m4[ids@[start + j]]
            &&& *final(args[j].3) == s4@[ids@[start + j]]
        } by {
            if j > 0 {
                assert(args[j] == rargs[j - 1]);
                assert(ids@[start + j] != id);
            }
        }
    }
    Ghost(seq![v] + rest@)
}

/// Calls `f` once for each entity of `ids`, in order, on mutable references
/// to that entity's components in `s1`, `s2`, `s3`, `s4`: the `j`-th call finds the
/// components the `j`-th entity held before, and leaves behind the values
/// that entity holds afterwards. The components of other entities, and which
/// entities hold components, do not change. The result records the values
/// each call found, in order.
pub fn apply4<Id: Copy + Eq + Hash, T1, T2, T3, T4, F: FnMut(&mut T1, &mut T2, &mut T3, &mut T4)>(
    f: &mut F,
    s1: &mut ComponentStorage<Id, T1>,
    s2: &mut ComponentStorage<Id, T2>,
    s3: &mut ComponentStorage<Id, T3>,
    s4: &mut ComponentStorage<Id, T4>,
    ids: &Vec<Id>,
) -> (calls: Ghost<Seq<(T1, T2, T3, T4)>>)
    requires
        forall|a: (&mut T1, &mut T2, &mut T3, &mut T4)| call_requires(*old(f), a),
        old(s1).well_formed(),
        old(s2).well_formed(),
        old(s3).well_formed(),
        old(s4).well_formed(),
        ids@.no_duplicates(),
        forall|j: int| 0 <= j < ids@.len() ==> old(s1)@.contains_key(#[trigger] ids@[j]) && old(s2)@.contains_key(ids@[j]) && old(s3)@.contains_key(ids@[j]) && old(s4)@.contains_key(ids@[j]),
    ensures
        *final(f) == *old(f),
        final(s1).well_formed(),
        final(s1)@.dom() == old(s1)@.dom(),
        forall|x: Id| old(s1)@.contains_key(x) && !ids@.contains(x) ==> #[trigger] final(s1)@[x] == old(s1)@[x],
        final(s2).well_formed(),
        final(s2)@.dom() == old(s2)@.dom(),
        forall|x: Id| old(s2)@.contains_key(x) && !ids@.contains(x) ==> #[trigger] final(s2)@[x] == old(s2)@[x],
        final(s3).well_formed(),
        final(s3)@.dom() == old(s3)@.dom(),
        forall|x: Id| old(s3)@.contains_key(x) && !ids@.contains(x) ==> #[trigger] final(s3)@[x] == old(s3)@[x],
        final(s4).well_formed(),
        final(s4)@.dom() == old(s4)@.dom(),
        forall|x: Id| old(s4)@.contains_key(x) && !ids@.contains(x) ==> #[trigger] final(s4)@[x] == old(s4)@[x],
        exists|args: Seq<(&mut T1, &mut T2, &mut T3, &mut T4)>| #![trigger args.len()] args.len() == ids@.len() && forall|j: int|
                0 <= j < args.len() ==> {
                    &&& call_ensures(*old(f), #[trigger] args[j], ())
                    &&& *args[j].0 == old(s1)@[ids@[j]]
                    &&& *final(args[j].0) == final(s1)@[ids@[j]]
                    &&& *args[j].1 == old(s2)@[ids@[j]]
                    &&& *final(args[j].1) == final(s2)@[ids@[j]]
                    &&& *args[j].2 == old(s3)@[ids@[j]]
                    &&& *final(args[j].2) == final(s3)@[ids@[j]]
                    &&& *args[j].3 == old(s4)@[ids@[j]]
                    &&& *final(args[j].3) == final(s4)@[ids@[j]]
                },
        calls@.len() == ids@.len(),
        forall|j: int| 0 <= j < ids@.len() ==> #[trigger] calls@[j] == (old(s1)@[ids@[j]], old(s2)@[ids@[j]], old(s3)@[ids@[j]], old(s4)@[ids@[j]]),
        forall|j: int| 0 <= j < ids@.len() ==> #[trigger] called4(*old(f), calls@[j]),
{
    assert(ids@.subrange(0, ids@.len() as int) =~= ids@);
    let ghost f0 = *f;
    let ghost m1 = s1@;
    let ghost m2 = s2@;
    let ghost m3 = s3@;
    let ghost m4 = s4@;
    let calls = apply4_from(f, s1, s2, s3, s4, ids, 0);
    proof {
        let args = choose|args: Seq<(&mut T1, &mut T2, &mut T3, &mut T4)>| #![trigger args.len()] args.len() == ids@.len() - 0 && forall|j: int|
                0 <= j < args.len() ==> {
                    &&& call_ensures(f0, #[trigger] args[j], ())
                    &&& *args[j].0 == m1[ids@[0 + j]]
                    &&& *final(args[j].0) == s1@[ids@[0 + j]]
                    &&& *args[j].1 == m2[ids@[0 + j]]
                    &&& *final(args[j].1) == s2@[ids@[0 + j]]
                    &&& *args[j].2 == m3[ids@[0 + j]]
                    &&& *final(args[j].2) == s3@[ids@[0 + j]]
                    &&& *args[j].3 == m4[ids@[0 + j]]
                    &&& *final(args[j].3) == s4@[ids@[0 + j]]
                };
        assert(args.len() == ids@.len());
        assert forall|j: int| 0 <= j < args.len() implies {
            &&& call_ensures(f0, #[trigger] args[j], ())
            &&& *args[j].0 == m1[ids@[j]]
            &&& *final(args[j].0) == s1@[ids@[j]]
            &&& *args[j].1 == m2[ids@[j]]
            &&& *final(args[j].1) == s2@[ids@[j]]
            &&& *args[j].2 == m3[ids@[j]]
            &&& *final(args[j].2) == s3@[ids@[j]]
            &&& *args[j].3 == m4[ids@[j]]
            &&& *final(args[j].3) == s4@[ids@[j]]
        } by {
            assert(0 + j == j);
        }
    }
    calls
}

impl<
    Id: Copy + Eq + Hash + 'static,
    T1: 'static,
    F: FnMut(&mut T1) + 'static,
> IntoOpaqueSystem<Id, (T1,)> for F {
    type System = System<(T1,), F>;

    open spec fn callable(&self) -> bool {
        forall|a: (&mut T1,)| call_requires(*self, a)
    }

    open spec fn arity(&self) -> nat {
        1
    }

    fn into_opaque_system(self) -> (r: System<(T1,), F>) {
        let mut keys: Vec<TypeId> = Vec::new();
        keys.push(type_key::<T1>());
        System { call: self, keys, applied: Ghost(Seq::empty()), _signature: PhantomData }
    }
}

impl<
    Id: Copy + Eq + Hash + 'static,
    T1: 'static,
    F: FnMut(&mut T1) + 'static,
> OpaqueSystem<Id> for System<(T1,), F> {
    closed spec fn keys(&self) -> Seq<TypeId> {
        self.keys@
    }

    closed spec fn system_valid(&self) -> bool {
        &&& self.keys@.len() == 1
        &&& forall|a: (&mut T1,)| call_requires(self.call, a)
    }

    closed spec fn applied(&self, visited: Seq<Id>) -> bool {
        &&& self.applied@.len() == visited.len()
        &&& forall|j: int| 0 <= j < visited.len() ==> #[trigger] called1(self.call, self.applied@[j])
    }

    closed spec fn found(&self, before: ValueMap<Id>, visited: Seq<Id>) -> bool {
        &&& self.applied@.len() == visited.len()
        &&& forall|j: int| 0 <= j < visited.len() ==> {
            &&& #[trigger] before[self.keys@[0]][visited[j]] == erase(self.applied@[j].0)
        }
    }

    /// Calls the closure once on the `T1` component of every entity that
    /// has one, through `apply1`, whose contract states what each call finds
    /// and leaves behind.
    fn run(&mut self, component_manager: &mut ComponentManager<Id>) -> (visited: Ghost<Seq<Id>>) {
        let k1 = self.keys[0];
        let ids = component_manager.query(self.keys.as_slice());
        let ghost v0 = component_manager@;
        let ghost w0 = component_manager.values();
        let ghost ks = self.keys@;
        let ghost mut visited: Seq<Id> = Seq::empty();
        let ghost f0 = self.call;
        let ghost mut log: Seq<(T1,)> = Seq::empty();
        proof {
            lemma_matching_holds(v0, ks, ids@);
        }
        match component_manager.take_store(&k1) {
            None => {},
            Some(mut e1) => {
                let ghost d1 = e1.store.stored_ids();
                assert(d1 == v0[k1]);
                let ghost mut post1 = e1.store.erased_view();
                assert(post1 == w0[k1]);
                match downcast_storage_mut::<Id, T1>(&mut e1.store) {
                    Some(s1) => {
                        proof {
                            assert forall|j: int| 0 <= j < ids@.len() implies s1@.contains_key(#[trigger] ids@[j]) by {
                                assert(ids@.contains(ids@[j]));
                                assert(holds(v0, ks[0], ids@[j]));
                            }
                        }
                        let ghost p1 = s1@;
                        assert(erase_all(p1) == w0[k1]);
                        let calls = apply1(&mut self.call, s1, &ids);
                        proof {
                            assert(erase_all(s1@).dom() =~= w0[k1].dom());
                            assert forall|x: Id| w0[k1].contains_key(x) && !ids@.contains(x) implies erase_all(s1@)[x] == w0[k1][x] by {
                                assert(p1.contains_key(x));
                            }
                            assert forall|j: int| 0 <= j < ids@.len() implies #[trigger] w0[k1][ids@[j]] == erase(calls@[j].0) by {
                                assert(p1.contains_key(ids@[j]));
                            }
                            post1 = erase_all(s1@);
                            log = calls@;
                            visited = ids@;
                        }
                    },
                    None => {},
                }
                proof {
                    assert(e1.store.erased_view() == post1);
                    assert(post1.dom() == w0[k1].dom());
                    assert(forall|x: Id| w0[k1].contains_key(x) && !visited.contains(x) ==> post1[x] == w0[k1][x]);
                    assert(forall|j: int| 0 <= j < visited.len() ==> #[trigger] w0[k1][visited[j]] == erase(log[j].0));
                    assert(log.len() == visited.len());
                }
                component_manager.put_store(e1);
                assert(component_manager@ =~= v0);
                assert(component_manager.values() =~= w0.insert(k1, post1));
            },
        }
        self.applied = Ghost(log);
        proof {
            lemma_visits(v0, ks, ids@, visited);
        }
        assert(only_visited_changed(w0, component_manager.values(), ks, visited));
        Ghost(visited)
    }
}

impl<
    Id: Copy + Eq + Hash + 'static,
    T1: 'static,
    T2: 'static,
    F: FnMut(&mut T1, &mut T2) + 'static,
> IntoOpaqueSystem<Id, (T1, T2)> for F {
    type System = System<(T1, T2), F>;

    open spec fn callable(&self) -> bool {
        forall|a: (&mut T1, &mut T2)| call_requires(*self, a)
    }

    open spec fn arity(&self) -> nat {
        2
    }

    fn into_opaque_system(self) -> (r: System<(T1, T2), F>) {
        let mut keys: Vec<TypeId> = Vec::new();
        keys.push(type_key::<T1>());
        keys.push(type_key::<T2>());
        System { call: self, keys, applied: Ghost(Seq::empty()), _signature: PhantomData }
    }
}

impl<
    Id: Copy + Eq + Hash + 'static,
    T1: 'static,
    T2: 'static,
    F: FnMut(&mut T1, &mut T2) + 'static,
> OpaqueSystem<Id> for System<(T1, T2), F> {
    closed spec fn keys(&self) -> Seq<TypeId> {
        self.keys@
    }

    closed spec fn system_valid(&self) -> bool {
        &&& self.keys@.len() == 2
        &&& forall|a: (&mut T1, &mut T2)| call_requires(self.call, a)
    }

    closed spec fn applied(&self, visited: Seq<Id>) -> bool {
        &&& self.applied@.len() == visited.len()
        &&& forall|j: int| 0 <= j < visited.len() ==> #[trigger] called2(self.call, self.applied@[j])
    }

    closed spec fn found(&self, before: ValueMap<Id>, visited: Seq<Id>) -> bool {
        &&& self.applied@.len() == visited.len()
        &&& forall|j: int| 0 <= j < visited.len() ==> {
            &&& #[trigger] before[self.keys@[0]][visited[j]] == erase(self.applied@[j].0)
            &&& #[trigger] before[self.keys@[1]][visited[j]] == erase(self.applied@[j].1)
        }
    }

    /// Calls the closure once on the `T1` and `T2` components of
    /// every entity that has all of them, through `apply2`, whose contract
    /// states what each call finds and leaves behind. Two parameters of the
    /// same type match nothing.
    fn run(&mut self, component_manager: &mut ComponentManager<Id>) -> (visited: Ghost<Seq<Id>>) {
        let k1 = self.keys[0];
        let k2 = self.keys[1];
        let ids = component_manager.query(self.keys.as_slice());
        let ghost v0 = component_manager@;
        let ghost w0 = component_manager.values();
        let ghost ks = self.keys@;
        let ghost mut visited: Seq<Id> = Seq::empty();
        let ghost f0 = self.call;
        let ghost mut log: Seq<(T1, T2)> = Seq::empty();
        proof {
            lemma_matching_holds(v0, ks, ids@);
        }
        match component_manager.take_store(&k1) {
            None => {},
            Some(mut e1) => {
                match component_manager.take_store(&k2) {
                    None => {
                        component_manager.put_store(e1);
                        assert(component_manager@ =~= v0);
                        assert(component_manager.values() =~= w0);
                    },
                    Some(mut e2) => {
                        let ghost d1 = e1.store.stored_ids();
                        let ghost d2 = e2.store.stored_ids();
                        assert(d1 == v0[k1] && d2 == v0[k2]);
                        let ghost mut post1 = e1.store.erased_view();
                        let ghost mut post2 = e2.store.erased_view();
                        assert(post1 == w0[k1] && post2 == w0[k2]);
                        match downcast_storage_mut::<Id, T1>(&mut e1.store) {
                            Some(s1) => {
                                match downcast_storage_mut::<Id, T2>(&mut e2.store) {
                                    Some(s2) => {
                                        proof {
                                            assert forall|j: int| 0 <= j < ids@.len() implies s1@.contains_key(#[trigger] ids@[j]) && s2@.contains_key(ids@[j]) by {
                                                assert(ids@.contains(ids@[j]));
                                                assert(holds(v0, ks[0], ids@[j]));
                                                assert(holds(v0, ks[1], ids@[j]));
                                            }
                                        }
                                        let ghost p1 = s1@;
                                        let ghost p2 = s2@;
                                        assert(erase_all(p1) == w0[k1] && erase_all(p2) == w0[k2]);
                                        let calls = apply2(&mut self.call, s1, s2, &ids);
                                        proof {
                                            assert(erase_all(s1@).dom() =~= w0[k1].dom());
                                            assert forall|x: Id| w0[k1].contains_key(x) && !ids@.contains(x) implies erase_all(s1@)[x] == w0[k1][x] by {
                                                assert(p1.contains_key(x));
                                            }
                                            assert forall|j: int| 0 <= j < ids@.len() implies #[trigger] w0[k1][ids@[j]] == erase(calls@[j].0) by {
                                                assert(p1.contains_key(ids@[j]));
                                            }
                                            post1 = erase_all(s1@);
                                            assert(erase_all(s2@).dom() =~= w0[k2].dom());
                                            assert forall|x: Id| w0[k2].contains_key(x) && !ids@.contains(x) implies erase_all(s2@)[x] == w0[k2][x] by {
                                                assert(p2.contains_key(x));
                                            }
                                            assert forall|j: int| 0 <= j < ids@.len() implies #[trigger] w0[k2][ids@[j]] == erase(calls@[j].1) by {
                                                assert(p2.contains_key(ids@[j]));
                                            }
                                            post2 = erase_all(s2@);
                                            log = calls@;
                                            visited = ids@;
                                        }
                                    },
                                    None => {},
                                }
                            },
                            None => {},
                        }
                        proof {
                            assert(e1.store.erased_view() == post1);
                            assert(post1.dom() == w0[k1].dom());
                            assert(forall|x: Id| w0[k1].contains_key(x) && !visited.contains(x) ==> post1[x] == w0[k1][x]);
                            assert(forall|j: int| 0 <= j < visited.len() ==> #[trigger] w0[k1][visited[j]] == erase(log[j].0));
                            assert(e2.store.erased_view() == post2);
                            assert(post2.dom() == w0[k2].dom());
                            assert(forall|x: Id| w0[k2].contains_key(x) && !visited.contains(x) ==> post2[x] == w0[k2][x]);
                            assert(forall|j: int| 0 <= j < visited.len() ==> #[trigger] w0[k2][visited[j]] == erase(log[j].1));
                            assert(log.len() == visited.len());
                        }
                        component_manager.put_store(e2);
                        component_manager.put_store(e1);
                        assert(component_manager@ =~= v0);
                        assert(component_manager.values() =~= w0.insert(k1, post1).insert(k2, post2));
                    },
                }
            },
        }
        self.applied = Ghost(log);
        proof {
            lemma_visits(v0, ks, ids@, visited);
        }
        assert(only_visited_changed(w0, component_manager.values(), ks, visited));
        Ghost(visited)
    }
}

impl<
    Id: Copy + Eq + Hash + 'static,
    T1: 'static,
    T2: 'static,
    T3: 'static,
    F: FnMut(&mut T1, &mut T2, &mut T3) + 'static,
> IntoOpaqueSystem<Id, (T1, T2, T3)> for F {
    type System = System<(T1, T2, T3), F>;

    open spec fn callable(&self) -> bool {
        forall|a: (&mut T1, &mut T2, &mut T3)| call_requires(*self, a)
    }

    open spec fn arity(&self) -> nat {
        3
    }

    fn into_opaque_system(self) -> (r: System<(T1, T2, T3), F>) {
        let mut keys: Vec<TypeId> = Vec::new();
        keys.push(type_key::<T1>());
        keys.push(type_key::<T2>());
        keys.push(type_key::<T3>());
        System { call: self, keys, applied: Ghost(Seq::empty()), _signature: PhantomData }
    }
}

impl<
    Id: Copy + Eq + Hash + 'static,
    T1: 'static,
    T2: 'static,
    T3: 'static,
    F: FnMut(&mut T1, &mut T2, &mut T3) + 'static,
> OpaqueSystem<Id> for System<(T1, T2, T3), F> {
    closed spec fn keys(&self) -> Seq<TypeId> {
        self.keys@
    }

    closed spec fn system_valid(&self) -> bool {
        &&& self.keys@.len() == 3
        &&& forall|a: (&mut T1, &mut T2, &mut T3)| call_requires(self.call, a)
    }

    closed spec fn applied(&self, visited: Seq<Id>) -> bool {
        &&& self.applied@.len() == visited.len()
        &&& forall|j: int| 0 <= j < visited.len() ==> #[trigger] called3(self.call, self.applied@[j])
    }

    closed spec fn found(&self, before: ValueMap<Id>, visited: Seq<Id>) -> bool {
        &&& self.applied@.len() == visited.len()
        &&& forall|j: int| 0 <= j < visited.len() ==> {
            &&& #[trigger] before[self.keys@[0]][visited[j]] == erase(self.applied@[j].0)
            &&& #[trigger] before[self.keys@[1]][visited[j]] == erase(self.applied@[j].1)
            &&& #[trigger] before[self.keys@[2]][visited[j]] == erase(self.applied@[j].2)
        }
    }

    /// Calls the closure once on the `T1`, `T2` and `T3` components of
    /// every entity that has all of them, through `apply3`, whose contract
    /// states what each call finds and leaves behind. Two parameters of the
    /// same type match nothing.
    fn run(&mut self, component_manager: &mut ComponentManager<Id>) -> (visited: Ghost<Seq<Id>>) {
        let k1 = self.keys[0];
        let k2 = self.keys[1];
        let k3 = self.keys[2];
        let ids = component_manager.query(self.keys.as_slice());
        let ghost v0 = component_manager@;
        let ghost w0 = component_manager.values();
        let ghost ks = self.keys@;
        let ghost mut visited: Seq<Id> = Seq::empty();
        let ghost f0 = self.call;
        let ghost mut log: Seq<(T1, T2, T3)> = Seq::empty();
        proof {
            lemma_matching_holds(v0, ks, ids@);
        }
        match component_manager.take_store(&k1) {
            None => {},
            Some(mut e1) => {
                match component_manager.take_store(&k2) {
                    None => {
                        component_manager.put_store(e1);
                        assert(component_manager@ =~= v0);
                        assert(component_manager.values() =~= w0);
                    },
                    Some(mut e2) => {
                        match component_manager.take_store(&k3) {
                            None => {
                                component_manager.put_store(e2);
                                component_manager.put_store(e1);
                                assert(component_manager@ =~= v0);
                                assert(component_manager.values() =~= w0);
                            },
                            Some(mut e3) => {
                                let ghost d1 = e1.store.stored_ids();
                                let ghost d2 = e2.store.stored_ids();
                                let ghost d3 = e3.store.stored_ids();
                                assert(d1 == v0[k1] && d2 == v0[k2] && d3 == v0[k3]);
                                let ghost mut post1 = e1.store.erased_view();
                                let ghost mut post2 = e2.store.erased_view();
                                let ghost mut post3 = e3.store.erased_view();
                                assert(post1 == w0[k1] && post2 == w0[k2] && post3 == w0[k3]);
                                match downcast_storage_mut::<Id, T1>(&mut e1.store) {
                                    Some(s1) => {
                                        match downcast_storage_mut::<Id, T2>(&mut e2.store) {
                                            Some(s2) => {
                                                match downcast_storage_mut::<Id, T3>(&mut e3.store) {
                                                    Some(s3) => {
                                                        proof {
                                                            assert forall|j: int| 0 <= j < ids@.len() implies s1@.contains_key(#[trigger] ids@[j]) && s2@.contains_key(ids@[j]) && s3@.contains_key(ids@[j]) by {
                                                                assert(ids@.contains(ids@[j]));
                                                                assert(holds(v0, ks[0], ids@[j]));
                                                                assert(holds(v0, ks[1], ids@[j]));
                                                                assert(holds(v0, ks[2], ids@[j]));
                                                            }
                                                        }
                                                        let ghost p1 = s1@;
                                                        let ghost p2 = s2@;
                                                        let ghost p3 = s3@;
                                                        assert(erase_all(p1) == w0[k1] && erase_all(p2) == w0[k2] && erase_all(p3) == w0[k3]);
                                                        let calls = apply3(&mut self.call, s1, s2, s3, &ids);
                                                        proof {
                                                            assert(erase_all(s1@).dom() =~= w0[k1].dom());
                                                            assert forall|x: Id| w0[k1].contains_key(x) && !ids@.contains(x) implies erase_all(s1@)[x] == w0[k1][x] by {
                                                                assert(p1.contains_key(x));
                                                            }
                                                            assert forall|j: int| 0 <= j < ids@.len() implies #[trigger] w0[k1][ids@[j]] == erase(calls@[j].0) by {
                                                                assert(p1.contains_key(ids@[j]));
                                                            }
                                                            post1 = erase_all(s1@);
                                                            assert(erase_all(s2@).dom() =~= w0[k2].dom());
                                                            assert forall|x: Id| w0[k2].contains_key(x) && !ids@.contains(x) implies erase_all(s2@)[x] == w0[k2][x] by {
                                                                assert(p2.contains_key(x));
                                                            }
                                                            assert forall|j: int| 0 <= j < ids@.len() implies #[trigger] w0[k2][ids@[j]] == erase(calls@[j].1) by {
                                                                assert(p2.contains_key(ids@[j]));
                                                            }
                                                            post2 = erase_all(s2@);
                                                            assert(erase_all(s3@).dom() =~= w0[k3].dom());
                                                            assert forall|x: Id| w0[k3].contains_key(x) && !ids@.contains(x) implies erase_all(s3@)[x] == w0[k3][x] by {
                                                                assert(p3.contains_key(x));
                                                            }
                                                            assert forall|j: int| 0 <= j < ids@.len() implies #[trigger] w0[k3][ids@[j]] == erase(calls@[j].2) by {
                                                                assert(p3.contains_key(ids@[j]));
                                                            }
                                                            post3 = erase_all(s3@);
                                                            log = calls@;
                                                            visited = ids@;
                                                        }
                                                    },
                                                    None => {},
                                                }
                                            },
                                            None => {},
                                        }
                                    },
                                    None => {},
                                }
                                proof {
                                    assert(e1.store.erased_view() == post1);
                                    assert(post1.dom() == w0[k1].dom());
                                    assert(forall|x: Id| w0[k1].contains_key(x) && !visited.contains(x) ==> post1[x] == w0[k1][x]);
                                    assert(forall|j: int| 0 <= j < visited.len() ==> #[trigger] w0[k1][visited[j]] == erase(log[j].0));
                                    assert(e2.store.erased_view() == post2);
                                    assert(post2.dom() == w0[k2].dom());
                                    assert(forall|x: Id| w0[k2].contains_key(x) && !visited.contains(x) ==> post2[x] == w0[k2][x]);
                                    assert(forall|j: int| 0 <= j < visited.len() ==> #[trigger] w0[k2][visited[j]] == erase(log[j].1));
                                    assert(e3.store.erased_view() == post3);
                                    assert(post3.dom() == w0[k3].dom());
                                    assert(forall|x: Id| w0[k3].contains_key(x) && !visited.contains(x) ==> post3[x] == w0[k3][x]);
                                    assert(forall|j: int| 0 <= j < visited.len() ==> #[trigger] w0[k3][visited[j]] == erase(log[j].2));
                                    assert(log.len() == visited.len());
                                }
                                component_manager.put_store(e3);
                                component_manager.put_store(e2);
                                component_manager.put_store(e1);
                                assert(component_manager@ =~= v0);
                                assert(component_manager.values() =~= w0.insert(k1, post1).insert(k2, post2).insert(k3, post3));
                            },
                        }
                    },
                }
            },
        }
        self.applied = Ghost(log);
        proof {
            lemma_visits(v0, ks, ids@, visited);
        }
        assert(only_visited_changed(w0, component_manager.values(), ks, visited));
        Ghost(visited)
    }
}

impl<
    Id: Copy + Eq + Hash + 'static,
    T1: 'static,
    T2: 'static,
    T3: 'static,
    T4: 'static,
    F: FnMut(&mut T1, &mut T2, &mut T3, &mut T4) + 'static,
> IntoOpaqueSystem<Id, (T1, T2, T3, T4)> for F {
    type System = System<(T1, T2, T3, T4), F>;

    open spec fn callable(&self) -> bool {
        forall|a: (&mut T1, &mut T2, &mut T3, &mut T4)| call_requires(*self, a)
    }

    open spec fn arity(&self) -> nat {
        4
    }

    fn into_opaque_system(self) -> (r: System<(T1, T2, T3, T4), F>) {
        let mut keys: Vec<TypeId> = Vec::new();
        keys.push(type_key::<T1>());
        keys.push(type_key::<T2>());
        keys.push(type_key::<T3>());
        keys.push(type_key::<T4>());
        System { call: self, keys, applied: Ghost(Seq::empty()), _signature: PhantomData }
    }
}

impl<
    Id: Copy + Eq + Hash + 'static,
    T1: 'static,
    T2: 'static,
    T3: 'static,
    T4: 'static,
    F: FnMut(&mut T1, &mut T2, &mut T3, &mut T4) + 'static,
> OpaqueSystem<Id> for System<(T1, T2, T3, T4), F> {
    closed spec fn keys(&self) -> Seq<TypeId> {
        self.keys@
    }

    closed spec fn system_valid(&self) -> bool {
        &&& self.keys@.len() == 4
        &&& forall|a: (&mut T1, &mut T2, &mut T3, &mut T4)| call_requires(self.call, a)
    }

    closed spec fn applied(&self, visited: Seq<Id>) -> bool {
        &&& self.applied@.len() == visited.len()
        &&& forall|j: int| 0 <= j < visited.len() ==> #[trigger] called4(self.call, self.applied@[j])
    }

    closed spec fn found(&self, before: ValueMap<Id>, visited: Seq<Id>) -> bool {
        &&& self.applied@.len() == visited.len()
        &&& forall|j: int| 0 <= j < visited.len() ==> {
            &&& #[trigger] before[self.keys@[0]][visited[j]] == erase(self.applied@[j].0)
            &&& #[trigger] before[self.keys@[1]][visited[j]] == erase(self.applied@[j].1)
            &&& #[trigger] before[self.keys@[2]][visited[j]] == erase(self.applied@[j].2)
            &&& #[trigger] before[self.keys@[3]][visited[j]] == erase(self.applied@[j].3)
        }
    }

    /// Calls the closure once on the `T1`, `T2`, `T3` and `T4` components of
    /// every entity that has all of them, through `apply4`, whose contract
    /// states what each call finds and leaves behind. Two parameters of the
    /// same type match nothing.
    fn run(&mut self, component_manager: &mut ComponentManager<Id>) -> (visited: Ghost<Seq<Id>>) {
        let k1 = self.keys[0];
        let k2 = self.keys[1];
        let k3 = self.keys[2];
        let k4 = self.keys[3];
        let ids = component_manager.query(self.keys.as_slice());
        let ghost v0 = component_manager@;
        let ghost w0 = component_manager.values();
        let ghost ks = self.keys@;
        let ghost mut visited: Seq<Id> = Seq::empty();
        let ghost f0 = self.call;
        let ghost mut log: Seq<(T1, T2, T3, T4)> = Seq::empty();
        proof {
            lemma_matching_holds(v0, ks, ids@);
        }
        match component_manager.take_store(&k1) {
            None => {},
            Some(mut e1) => {
                match component_manager.take_store(&k2) {
                    None => {
                        component_manager.put_store(e1);
                        assert(component_manager@ =~= v0);
                        assert(component_manager.values() =~= w0);
                    },
                    Some(mut e2) => {
                        match component_manager.take_store(&k3) {
                            None => {
                                component_manager.put_store(e2);
                                component_manager.put_store(e1);
                                assert(component_manager@ =~= v0);
                                assert(component_manager.values() =~= w0);
                            },
                            Some(mut e3) => {
                                match component_manager.take_store(&k4) {
                                    None => {
                                        component_manager.put_store(e3);
                                        component_manager.put_store(e2);
                                        component_manager.put_store(e1);
                                        assert(component_manager@ =~= v0);
                                        assert(component_manager.values() =~= w0);
                                    },
                                    Some(mut e4) => {
                                        let ghost d1 = e1.store.stored_ids();
                                        let ghost d2 = e2.store.stored_ids();
                                        let ghost d3 = e3.store.stored_ids();
                                        let ghost d4 = e4.store.stored_ids();
                                        assert(d1 == v0[k1] && d2 == v0[k2] && d3 == v0[k3] && d4 == v0[k4]);
                                        let ghost mut post1 = e1.store.erased_view();
                                        let ghost mut post2 = e2.store.erased_view();
                                        let ghost mut post3 = e3.store.erased_view();
                                        let ghost mut post4 = e4.store.erased_view();
                                        assert(post1 == w0[k1] && post2 == w0[k2] && post3 == w0[k3] && post4 == w0[k4]);
                                        match downcast_storage_mut::<Id, T1>(&mut e1.store) {
                                            Some(s1) => {
                                                match downcast_storage_mut::<Id, T2>(&mut e2.store) {
                                                    Some(s2) => {
                                                        match downcast_storage_mut::<Id, T3>(&mut e3.store) {
                                                            Some(s3) => {
                                                                match downcast_storage_mut::<Id, T4>(&mut e4.store) {
                                                                    Some(s4) => {
                                                                        proof {
                                                                            assert forall|j: int| 0 <= j < ids@.len() implies s1@.contains_key(#[trigger] ids@[j]) && s2@.contains_key(ids@[j]) && s3@.contains_key(ids@[j]) && s4@.contains_key(ids@[j]) by {
                                                                                assert(ids@.contains(ids@[j]));
                                                                                assert(holds(v0, ks[0], ids@[j]));
                                                                                assert(holds(v0, ks[1], ids@[j]));
                                                                                assert(holds(v0, ks[2], ids@[j]));
                                                                                assert(holds(v0, ks[3], ids@[j]));
                                                                            }
                                                                        }
                                                                        let ghost p1 = s1@;
                                                                        let ghost p2 = s2@;
                                                                        let ghost p3 = s3@;
                                                                        let ghost p4 = s4@;
                                                                        assert(erase_all(p1) == w0[k1] && erase_all(p2) == w0[k2] && erase_all(p3) == w0[k3] && erase_all(p4) == w0[k4]);
                                                                        let calls = apply4(&mut self.call, s1, s2, s3, s4, &ids);
                                                                        proof {
                                                                            assert(erase_all(s1@).dom() =~= w0[k1].dom());
                                                                            assert forall|x: Id| w0[k1].contains_key(x) && !ids@.contains(x) implies erase_all(s1@)[x] == w0[k1][x] by {
                                                                                assert(p1.contains_key(x));
                                                                            }
                                                                            assert forall|j: int| 0 <= j < ids@.len() implies #[trigger] w0[k1][ids@[j]] == erase(calls@[j].0) by {
                                                                                assert(p1.contains_key(ids@[j]));
                                                                            }
                                                                            post1 = erase_all(s1@);
                                                                            assert(erase_all(s2@).dom() =~= w0[k2].dom());
                                                                            assert forall|x: Id| w0[k2].contains_key(x) && !ids@.contains(x) implies erase_all(s2@)[x] == w0[k2][x] by {
                                                                                assert(p2.contains_key(x));
                                                                            }
                                                                            assert forall|j: int| 0 <= j < ids@.len() implies #[trigger] w0[k2][ids@[j]] == erase(calls@[j].1) by {
                                                                                assert(p2.contains_key(ids@[j]));
                                                                            }
                                                                            post2 = erase_all(s2@);
                                                                            assert(erase_all(s3@).dom() =~= w0[k3].dom());
                                                                            assert forall|x: Id| w0[k3].contains_key(x) && !ids@.contains(x) implies erase_all(s3@)[x] == w0[k3][x] by {
                                                                                assert(p3.contains_key(x));
                                                                            }
                                                                            assert forall|j: int| 0 <= j < ids@.len() implies #[trigger] w0[k3][ids@[j]] == erase(calls@[j].2) by {
                                                                                assert(p3.contains_key(ids@[j]));
                                                                            }
                                                                            post3 = erase_all(s3@);
                                                                            assert(erase_all(s4@).dom() =~= w0[k4].dom());
                                                                            assert forall|x: Id| w0[k4].contains_key(x) && !ids@.contains(x) implies erase_all(s4@)[x] == w0[k4][x] by {
                                                                                assert(p4.contains_key(x));
                                                                            }
                                                                            assert forall|j: int| 0 <= j < ids@.len() implies #[trigger] w0[k4][ids@[j]] == erase(calls@[j].3) by {
                                                                                assert(p4.contains_key(ids@[j]));
                                                                            }
                                                                            post4 = erase_all(s4@);
                                                                            log = calls@;
                                                                            visited = ids@;
                                                                        }
                                                                    },
                                                                    None => {},
                                                                }
                                                            },
                                                            None => {},
                                                        }
                                                    },
                                                    None => {},
                                                }
                                            },
                                            None => {},
                                        }
                                        proof {
                                            assert(e1.store.erased_view() == post1);
                                            assert(post1.dom() == w0[k1].dom());
                                            assert(forall|x: Id| w0[k1].contains_key(x) && !visited.contains(x) ==> post1[x] == w0[k1][x]);
                                            assert(forall|j: int| 0 <= j < visited.len() ==> #[trigger] w0[k1][visited[j]] == erase(log[j].0));
                                            assert(e2.store.erased_view() == post2);
                                            assert(post2.dom() == w0[k2].dom());
                                            assert(forall|x: Id| w0[k2].contains_key(x) && !visited.contains(x) ==> post2[x] == w0[k2][x]);
                                            assert(forall|j: int| 0 <= j < visited.len() ==> #[trigger] w0[k2][visited[j]] == erase(log[j].1));
                                            assert(e3.store.erased_view() == post3);
                                            assert(post3.dom() == w0[k3].dom());
                                            assert(forall|x: Id| w0[k3].contains_key(x) && !visited.contains(x) ==> post3[x] == w0[k3][x]);
                                            assert(forall|j: int| 0 <= j < visited.len() ==> #[trigger] w0[k3][visited[j]] == erase(log[j].2));
                                            assert(e4.store.erased_view() == post4);
                                            assert(post4.dom() == w0[k4].dom());
                                            assert(forall|x: Id| w0[k4].contains_key(x) && !visited.contains(x) ==> post4[x] == w0[k4][x]);
                                            assert(forall|j: int| 0 <= j < visited.len() ==> #[trigger] w0[k4][visited[j]] == erase(log[j].3));
                                            assert(log.len() == visited.len());
                                        }
                                        component_manager.put_store(e4);
                                        component_manager.put_store(e3);
                                        component_manager.put_store(e2);
                                        component_manager.put_store(e1);
                                        assert(component_manager@ =~= v0);
                                        assert(component_manager.values() =~= w0.insert(k1, post1).insert(k2, post2).insert(k3, post3).insert(k4, post4));
                                    },
                                }
                            },
                        }
                    },
                }
            },
        }
        self.applied = Ghost(log);
        proof {
            lemma_visits(v0, ks, ids@, visited);
        }
        assert(only_visited_changed(w0, component_manager.values(), ks, visited));
        Ghost(visited)
    }
}

/// A scheduled system, boxed.
#[verifier::reject_recursive_types(Id)]
pub struct SystemEntry<Id> {
    pub system: Box<dyn OpaqueSystem<Id>>,
}

/// The scheduled systems, in the order they were scheduled, with a record
/// of what the latest `run_systems` visited.
#[verifier::reject_recursive_types(Id)]
pub struct SystemManager<Id> {
    systems: Vec<SystemEntry<Id>>,
    last_run: Ghost<Seq<Seq<Id>>>,
    run_inputs: Ghost<Seq<ValueMap<Id>>>,
}

impl<Id> SystemManager<Id> {
    /// How many systems are scheduled.
    pub closed spec fn len(&self) -> nat {
        self.systems@.len()
    }

    /// The scheduled systems, in the order they were scheduled.
    pub closed spec fn scheduled(&self) -> Seq<SystemEntry<Id>> {
        self.systems@
    }

    /// The component type keys of each scheduled system, in schedule order.
    pub closed spec fn system_keys(&self) -> Seq<Seq<TypeId>> {
        Seq::new(self.systems@.len(), |i: int| self.systems@[i].system.keys())
    }

    /// For each system, the entities the latest `run_systems` applied it to.
    pub closed spec fn last_run(&self) -> Seq<Seq<Id>> {
        self.last_run@
    }

    /// The components as the latest `run_systems` found them before each
    /// system ran, followed by the components it left.
    pub closed spec fn run_inputs(&self) -> Seq<ValueMap<Id>> {
        self.run_inputs@
    }

    /// The record of the latest run covers every scheduled system, and each
    /// system made one call of its closure for every entity recorded as
    /// visited by it, in order (see `OpaqueSystem::applied`).
    pub closed spec fn applied(&self) -> bool {
        &&& self.last_run@.len() == self.systems@.len()
        &&& forall|i: int|
            0 <= i < self.systems@.len() ==> (#[trigger] self.systems@[i]).system.applied(self.last_run@[i])
    }

    /// Every scheduled system is valid.
    pub closed spec fn well_formed(&self) -> bool {
        forall|i: int| 0 <= i < self.systems@.len() ==> (#[trigger] self.systems@[i]).system.system_valid()
    }
}

impl<Id: Copy + Eq + Hash + 'static> SystemManager<Id> {
    /// Schedules `system` to run after the systems already scheduled.
    pub fn schedule<F, Input>(&mut self, system: F)
        where
            F: IntoOpaqueSystem<Id, Input>,
            <F as IntoOpaqueSystem<Id, Input>>::System: 'static,
        requires
            old(self).well_formed(),
            system.callable(),
        ensures
            final(self).well_formed(),
            final(self).len() == old(self).len() + 1,
            final(self).scheduled().drop_last() == old(self).scheduled(),
            final(self).scheduled().last().system.system_valid(),
            final(self).scheduled().last().system.keys().len() == system.arity(),
            final(self).system_keys().drop_last() == old(self).system_keys(),
            final(self).system_keys().last().len() == system.arity(),
            final(self).last_run() == old(self).last_run(),
            final(self).run_inputs() == old(self).run_inputs(),
    {
        let entry = new_system_entry(system.into_opaque_system());
        self.systems.push(entry);
        proof {
            assert forall|i: int| 0 <= i < self.systems@.len() implies (#[trigger] self.systems@[i]).system.system_valid() by {
                if i < old(self).systems@.len() {
                    assert(self.systems@[i] == old(self).systems@[i]);
                }
            }
            assert(self.scheduled().drop_last() =~= old(self).scheduled());
            assert(self.system_keys().drop_last() =~= old(self).system_keys()) by {
                assert forall|i: int| 0 <= i < old(self).systems@.len() implies self.systems@[i] == old(self).systems@[i] by {}
            }
        }
    }

    /// Runs every scheduled system once, in the order they were scheduled,
    /// and records what each visited. Components change in value only:
    /// which entities hold which components stays as it was.
    pub fn run_systems(&mut self, component_manager: &mut ComponentManager<Id>)
        requires
            old(self).well_formed(),
            old(component_manager).well_formed(),
        ensures
            final(self).well_formed(),
            final(component_manager).well_formed(),
            final(component_manager)@ == old(component_manager)@,
            final(self).len() == old(self).len(),
            final(self).system_keys() == old(self).system_keys(),
            final(self).last_run().len() == old(self).len(),
            forall|i: int|
                0 <= i < old(self).len() ==> visits_allowed(
                    old(component_manager)@,
                    #[trigger] old(self).system_keys()[i],
                    final(self).last_run()[i],
                ),
            final(self).applied(),
            final(self).run_inputs().len() == old(self).len() + 1,
            final(self).run_inputs()[0] == old(component_manager).values(),
            final(self).run_inputs().last() == final(component_manager).values(),
            forall|i: int|
                0 <= i < old(self).len() ==> only_visited_changed(
                    #[trigger] final(self).run_inputs()[i],
                    final(self).run_inputs()[i + 1],
                    old(self).system_keys()[i],
                    final(self).last_run()[i],
                ),
            forall|i: int|
                0 <= i < old(self).len() ==> (#[trigger] final(self).scheduled()[i]).system.found(
                    final(self).run_inputs()[i],
                    final(self).last_run()[i],
                ),
    {
        let ghost mut log: Seq<Seq<Id>> = Seq::empty();
        let ghost mut inputs: Seq<ValueMap<Id>> = seq![component_manager.values()];
        let mut i: usize = 0;
        while i < self.systems.len()
            invariant
                i <= self.systems@.len(),
                self.systems@.len() == old(self).systems@.len(),
                self.well_formed(),
                component_manager.well_formed(),
                component_manager@ == old(component_manager)@,
                forall|j: int| 0 <= j < self.systems@.len() ==> (#[trigger] self.systems@[j]).system.keys()
                    == old(self).systems@[j].system.keys(),
                log.len() == i,
                forall|j: int|
                    0 <= j < i ==> visits_allowed(
                        old(component_manager)@,
                        old(self).systems@[j].system.keys(),
                        #[trigger] log[j],
                    ),
                forall|j: int| 0 <= j < i ==> (#[trigger] self.systems@[j]).system.applied(log[j]),
                inputs.len() == i + 1,
                inputs[0] == old(component_manager).values(),
                inputs.last() == component_manager.values(),
                forall|j: int|
                    0 <= j < i ==> only_visited_changed(
                        #[trigger] inputs[j],
                        inputs[j + 1],
                        old(self).systems@[j].system.keys(),
                        log[j],
                    ),
                forall|j: int| 0 <= j < i ==> (#[trigger] self.systems@[j]).system.found(inputs[j], log[j]),
            decreases self.systems@.len() - i,
        {
            let ghost before = self.systems@;
            let ghost vals = component_manager.values();
            assert(self.systems@[i as int].system.system_valid());
            let visited = self.systems[i].system.run(component_manager);
            proof {
                log = log.push(visited@);
                inputs = inputs.push(component_manager.values());
                assert forall|j: int| 0 <= j < self.systems@.len() && j != i implies #[trigger] self.systems@[j] == before[j] by {}
                assert forall|j: int| 0 <= j < self.systems@.len() implies (#[trigger] self.systems@[j]).system.system_valid() by {
                    if j != i {
                        assert(self.systems@[j] == before[j]);
                    }
                }
                assert forall|j: int| 0 <= j < self.systems@.len() implies (#[trigger] self.systems@[j]).system.keys()
                    == old(self).systems@[j].system.keys() by {
                    if j != i {
                        assert(self.systems@[j] == before[j]);
                    }
                }
                assert forall|j: int| 0 <= j < i + 1 implies (#[trigger] self.systems@[j]).system.applied(log[j]) by {
                    if j != i {
                        assert(self.systems@[j] == before[j]);
                    }
                }
                assert forall|j: int| 0 <= j < i + 1 implies (#[trigger] self.systems@[j]).system.found(inputs[j], log[j]) by {
                    if j != i {
                        assert(self.systems@[j] == before[j]);
                    }
                }
                assert forall|j: int| 0 <= j < i + 1 implies only_visited_changed(
                    #[trigger] inputs[j],
                    inputs[j + 1],
                    old(self).systems@[j].system.keys(),
                    log[j],
                ) by {
                    if j == i {
                        assert(inputs[j] == vals);
                    }
                }
            }
            i = i + 1;
        }
        self.last_run = Ghost(log);
        self.run_inputs = Ghost(inputs);
        proof {
            assert(self.system_keys() =~= old(self).system_keys());
        }
    }
}

impl<Id> Default for SystemManager<Id> {
    fn default() -> (r: Self)
        ensures
            r.well_formed(),
            r.len() == 0,
            r.last_run() == Seq::<Seq<Id>>::empty(),
            r.run_inputs() == Seq::<ValueMap<Id>>::empty(),
    {
        SystemManager { systems: Vec::new(), last_run: Ghost(Seq::empty()), run_inputs: Ghost(Seq::empty()) }
    }
}

} // verus!
