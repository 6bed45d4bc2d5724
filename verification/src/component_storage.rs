use std::collections::HashMap;
use std::hash::Hash;
use vstd::prelude::*;
use crate::boundary::{any_mut, any_ref, shrink_map, shrink_vec, AnyMut, AnyRef};

verus! {

broadcast use vstd::std_specs::hash::group_hash_axioms;

/// Removes position `i` of `s` the way `Vec::swap_remove` does: the last
/// element takes its place.
pub open spec fn swap_removed<T>(s: Seq<T>, i: int) -> Seq<T> {
    s.update(i, s.last()).drop_last()
}

/// A dense store of components of one type, indexed by entity id.
///
/// Components are packed in `components`; `index_to_id` records which
/// entity each slot was filled for and `id_to_index` maps every stored
/// entity to its slot. A slot is live when the entity it was filled for
/// still maps to it. Storing a component for an entity that already has one
/// fills a new slot; the earlier slot is then no longer live but stays in
/// the slot array.
pub struct ComponentStorage<I, C> {
    id_to_index: HashMap<I, usize>,
    index_to_id: Vec<I>,
    components: Vec<C>,
}

impl<I, C> View for ComponentStorage<I, C> {
    type V = Map<I, C>;

    /// The component held for each stored entity: the one in its slot.
    open spec fn view(&self) -> Map<I, C> {
        self.index().map_values(|i: usize| self.slot_values()[i as int])
    }
}

impl<I, C> ComponentStorage<I, C> {
    /// The entity each slot was filled for, in slot order.
    pub closed spec fn slots(&self) -> Seq<I> {
        self.index_to_id@
    }

    /// The component in each slot, in slot order.
    pub closed spec fn slot_values(&self) -> Seq<C> {
        self.components@
    }

    /// The slot of each stored entity.
    pub closed spec fn index(&self) -> Map<I, usize> {
        self.id_to_index@
    }

    /// Whether slot `i` holds the component of the entity it was filled for.
    pub open spec fn is_live(&self, i: int) -> bool {
        &&& 0 <= i < self.slots().len()
        &&& self.index().contains_key(self.slots()[i])
        &&& self.index()[self.slots()[i]] == i
    }

    /// Every stored entity maps to a slot filled for it, and the two arrays
    /// have one entry per slot.
    pub open spec fn well_formed(&self) -> bool {
        &&& vstd::std_specs::hash::obeys_key_model::<I>()
        &&& self.slot_values().len() == self.slots().len()
        &&& forall|id: I|
            #[trigger] self.index().contains_key(id) ==> {
                &&& self.index()[id] < self.slots().len()
                &&& self.slots()[self.index()[id] as int] == id
            }
    }

    /// The entities of the live slots, in slot order, among the first `n`
    /// slots.
    pub open spec fn live_prefix(&self, n: nat) -> Seq<I>
        decreases n,
    {
        if n == 0 {
            Seq::empty()
        } else {
            let p = self.live_prefix((n - 1) as nat);
            if self.is_live(n - 1) {
                p.push(self.slots()[n - 1])
            } else {
                p
            }
        }
    }

    /// The entities of the live slots, in slot order.
    pub open spec fn live_ids(&self) -> Seq<I> {
        self.live_prefix(self.slots().len())
    }

    /// The live slots among the first `n` hold each stored entity whose
    /// slot is below `n`, once.
    pub proof fn lemma_live_prefix(&self, n: nat)
        requires
            self.well_formed(),
            n <= self.slots().len(),
        ensures
            self.live_prefix(n).no_duplicates(),
            forall|id: I|
                #[trigger] self.live_prefix(n).contains(id) <==> (self.index().contains_key(id)
                    && self.index()[id] < n),
        decreases n,
    {
        if n > 0 {
            self.lemma_live_prefix((n - 1) as nat);
            let p = self.live_prefix((n - 1) as nat);
            if self.is_live(n - 1) {
                let x = self.slots()[n - 1];
                assert(!p.contains(x));
                assert(self.index().contains_key(x) && self.index()[x] == n - 1);
                assert forall|id: I| #[trigger] p.push(x).contains(id) <==> (self.index().contains_key(id)
                    && self.index()[id] < n) by {
                    vstd::seq_lib::lemma_seq_contains_after_push(p, x, id);
                    if p.contains(id) {
                        assert(self.index().contains_key(id) && self.index()[id] < n - 1);
                    }
                    if self.index().contains_key(id) && self.index()[id] < n {
                        assert(self.is_live(self.index()[id] as int));
                        if self.index()[id] < n - 1 {
                            assert(p.contains(id));
                        } else {
                            assert(self.slots()[n - 1] == id);
                        }
                    }
                }
            } else {
                assert forall|id: I| #[trigger] p.contains(id) <==> (self.index().contains_key(id)
                    && self.index()[id] < n) by {
                    if self.index().contains_key(id) && self.index()[id] == n - 1 {
                        assert(self.is_live(self.index()[id] as int));
                    }
                }
            }
        }
    }

    /// The live slots hold every stored entity, once.
    pub proof fn lemma_live_ids(&self)
        requires
            self.well_formed(),
        ensures
            self.live_ids().no_duplicates(),
            self.live_ids().to_set() == self@.dom(),
    {
        self.lemma_live_prefix(self.slots().len());
        assert(self.live_ids().to_set() =~= self@.dom());
    }
}

impl<I: Eq + Hash + Copy, C> ComponentStorage<I, C> {
    /// The component stored for `id`, if any.
    pub fn get(&self, id: &I) -> (r: Option<&C>)
        requires
            self.well_formed(),
        ensures
            match r {
                Some(c) => self@.contains_key(*id) && *c == self@[*id],
                None => !self@.contains_key(*id),
            },
    {
        match self.id_to_index.get(id) {
            Some(i) => {
                proof {
                    assert(self.index().contains_key(*id));
                }
                Some(&self.components[*i])
            },
            None => None,
        }
    }

    /// Whether a component is stored for `id`.
    pub fn contains(&self, id: &I) -> (r: bool)
        requires
            self.well_formed(),
        ensures
            r == self@.contains_key(*id),
    {
        self.id_to_index.contains_key(id)
    }

    /// The components of all slots, live or not, in slot order.
    pub fn as_slice(&self) -> (r: &[C])
        requires
            self.well_formed(),
        ensures
            r@ == self.slot_values(),
    {
        self.components.as_slice()
    }

    /// Mutable access to the component stored for `id`, if any.
    pub fn get_mut(&mut self, id: &I) -> (r: Option<&mut C>)
        requires
            old(self).well_formed(),
        ensures
            final(self).well_formed(),
            final(self).slots() == old(self).slots(),
            final(self).index() == old(self).index(),
            final(self)@.dom() == old(self)@.dom(),
            match r {
                Some(c) => {
                    &&& old(self)@.contains_key(*id)
                    &&& *c == old(self)@[*id]
                    &&& final(self)@ == old(self)@.insert(*id, *final(c))
                    &&& final(self).slot_values() == old(self).slot_values().update(
                        old(self).index()[*id] as int,
                        *final(c),
                    )
                },
                None => {
                    &&& !old(self)@.contains_key(*id)
                    &&& final(self)@ == old(self)@
                    &&& final(self).slot_values() == old(self).slot_values()
                },
            },
    {
        match self.id_to_index.get(id) {
            Some(i) => {
                proof {
                    assert(self.index().contains_key(*id));
                }
                let i = *i;
                let r = &mut self.components[i];
                Some(r)
            },
            None => {
                assert(self@ =~= old(self)@);
                None
            },
        }
    }

    /// Stores `component` for `id` in a new slot at the end and hands
    /// nothing back. Should `id` have had a component, it is no longer
    /// reached from `id`; its slot stays in the slot array.
    pub fn insert(&mut self, id: I, component: C) -> (r: Option<C>)
        requires
            old(self).well_formed(),
        ensures
            r is None,
            final(self).well_formed(),
            final(self)@ == old(self)@.insert(id, component),
            final(self).slots() == old(self).slots().push(id),
            final(self).slot_values() == old(self).slot_values().push(component),
            final(self).index() == old(self).index().insert(id, old(self).slots().len() as usize),
    {
        let i = self.components.len();
        self.id_to_index.insert(id, i);
        self.index_to_id.push(id);
        self.components.push(component);
        proof {
            assert forall|k: I| #[trigger] self.index().contains_key(k) implies self.index()[k] < self.slots().len()
                && self.slots()[self.index()[k] as int] == k by {
                if k != id {
                    assert(old(self).index().contains_key(k));
                }
            }
            assert(self@ =~= old(self)@.insert(id, component));
        }
        None
    }

    /// Removes the component stored for `id`, handing it back. The last slot
    /// moves into the freed one, so the slots stay packed; the entity of the
    /// moved slot is pointed at its new place if that slot was live.
    pub fn remove(&mut self, id: &I) -> (r: Option<C>)
        requires
            old(self).well_formed(),
        ensures
            final(self).well_formed(),
            final(self)@ == old(self)@.remove(*id),
            match r {
                Some(c) => old(self)@.contains_key(*id) && c == old(self)@[*id],
                None => !old(self)@.contains_key(*id),
            },
            !old(self)@.contains_key(*id) ==> {
                &&& final(self).slots() == old(self).slots()
                &&& final(self).slot_values() == old(self).slot_values()
                &&& final(self).index() == old(self).index()
            },
            old(self)@.contains_key(*id) ==> {
                let i = old(self).index()[*id] as int;
                let last = old(self).slots().len() - 1;
                &&& final(self).slots() == swap_removed(old(self).slots(), i)
                &&& final(self).slot_values() == swap_removed(old(self).slot_values(), i)
                &&& final(self).index() == if i < last && old(self).is_live(last) {
                    old(self).index().remove(*id).insert(old(self).slots()[last], i as usize)
                } else {
                    old(self).index().remove(*id)
                }
            },
    {
        match self.id_to_index.remove(id) {
            None => {
                assert(self@ =~= old(self)@.remove(*id));
                None
            },
            Some(i) => {
                proof {
                    assert(old(self).index().contains_key(*id));
                    assert(old(self).is_live(i as int));
                }
                let last_index = self.components.len() - 1;
                if i < last_index {
                    let last_id = self.index_to_id[last_index];
                    let last_live = match self.id_to_index.get(&last_id) {
                        Some(j) => *j == last_index,
                        None => false,
                    };
                    proof {
                        if last_id == *id {
                            assert(!old(self).is_live(last_index as int));
                        }
                        assert(last_live == old(self).is_live(last_index as int));
                    }
                    if last_live {
                        self.id_to_index.insert(last_id, i);
                    }
                    self.index_to_id.swap_remove(i);
                    let c = self.components.swap_remove(i);
                    proof {
                        assert(self.slots() =~= swap_removed(old(self).slots(), i as int));
                        assert(self.slot_values() =~= swap_removed(old(self).slot_values(), i as int));
                        assert forall|k: I| #[trigger] self.index().contains_key(k) implies self.index()[k]
                            < self.slots().len() && self.slots()[self.index()[k] as int] == k by {
                            assert(old(self).index().contains_key(k));
                        }
                        assert(self@ =~= old(self)@.remove(*id));
                    }
                    Some(c)
                } else {
                    self.index_to_id.pop();
                    let c = self.components.pop();
                    proof {
                        assert(self.slots() =~= swap_removed(old(self).slots(), i as int));
                        assert(self.slot_values() =~= swap_removed(old(self).slot_values(), i as int));
                        assert forall|k: I| #[trigger] self.index().contains_key(k) implies self.index()[k]
                            < self.slots().len() && self.slots()[self.index()[k] as int] == k by {
                            assert(old(self).index().contains_key(k));
                        }
                        assert(self@ =~= old(self)@.remove(*id));
                    }
                    c
                }
            },
        }
    }
}


/// One step that changes a storage's contents: giving an id a component
/// (`insert`, and `get_mut` when the borrowed component is written back),
/// or taking an id's component away (`remove`, `delete`).
pub enum StorageOp<I, C> {
    Insert(I, C),
    Remove(I),
}

/// The contents after one step, as the functions' contracts state it.
pub open spec fn apply_op<I, C>(m: Map<I, C>, op: StorageOp<I, C>) -> Map<I, C> {
    match op {
        StorageOp::Insert(id, c) => m.insert(id, c),
        StorageOp::Remove(id) => m.remove(id),
    }
}

/// The contents after the steps `ops`, in order, starting from `m`.
pub open spec fn replay<I, C>(m: Map<I, C>, ops: Seq<StorageOp<I, C>>) -> Map<I, C>
    decreases ops.len(),
{
    if ops.len() == 0 {
        m
    } else {
        apply_op(replay(m, ops.drop_last()), ops.last())
    }
}

/// The latest step of `ops` that touches `id`: `Some(Some(c))` for an
/// insert of `c`, `Some(None)` for a removal, `None` if no step touches it.
pub open spec fn latest<I, C>(ops: Seq<StorageOp<I, C>>, id: I) -> Option<Option<C>>
    decreases ops.len(),
{
    if ops.len() == 0 {
        None
    } else {
        match ops.last() {
            StorageOp::Insert(k, c) => if k == id {
                Some(Some(c))
            } else {
                latest(ops.drop_last(), id)
            },
            StorageOp::Remove(k) => if k == id {
                Some(None)
            } else {
                latest(ops.drop_last(), id)
            },
        }
    }
}

/// A read gives back the latest write, over any sequence of steps: after
/// the steps `ops`, `get(id)` finds the component of the latest insert for
/// `id` if no removal of `id` came after it, finds nothing if a removal
/// came last, and finds what the storage held before if no step touched
/// `id`.
pub proof fn law_storage_trace<I, C>(m: Map<I, C>, ops: Seq<StorageOp<I, C>>, id: I)
    ensures
        match latest(ops, id) {
            Some(Some(c)) => replay(m, ops).contains_key(id) && replay(m, ops)[id] == c,
            Some(None) => !replay(m, ops).contains_key(id),
            None => {
                &&& replay(m, ops).contains_key(id) == m.contains_key(id)
                &&& m.contains_key(id) ==> replay(m, ops)[id] == m[id]
            },
        },
    decreases ops.len(),
{
    if ops.len() > 0 {
        law_storage_trace(m, ops.drop_last(), id);
    }
}

/// A read gives back what a write wrote: after `insert(id, c)`, `get(id)`
/// finds `c`, and every other id keeps the component it had, or still has
/// none.
pub proof fn law_get_after_insert<I, C>(
    before: ComponentStorage<I, C>,
    after: ComponentStorage<I, C>,
    id: I,
    c: C,
    other: I,
)
    requires
        after@ == before@.insert(id, c),
    ensures
        after@.contains_key(id),
        after@[id] == c,
        other != id ==> after@.contains_key(other) == before@.contains_key(other),
        other != id && before@.contains_key(other) ==> after@[other] == before@[other],
{
}

/// Removing undoes inserting: giving an id that had no component the
/// component `c` and then removing it hands `c` back and leaves the storage
/// holding what it held before.
pub proof fn law_remove_undoes_insert<I, C>(
    before: ComponentStorage<I, C>,
    mid: ComponentStorage<I, C>,
    after: ComponentStorage<I, C>,
    id: I,
    c: C,
    r: Option<C>,
)
    requires
        !before@.contains_key(id),
        mid@ == before@.insert(id, c),
        after@ == mid@.remove(id),
        match r {
            Some(x) => mid@.contains_key(id) && x == mid@[id],
            None => !mid@.contains_key(id),
        },
    ensures
        r == Some(c),
        after@ == before@,
{
    assert(after@ =~= before@);
}

/// Once removed, a component is gone: after `remove(id)`, `get(id)` finds
/// nothing and a second `remove(id)` hands nothing back and changes nothing.
pub proof fn law_remove_is_final<I, C>(before: ComponentStorage<I, C>, after: ComponentStorage<I, C>, id: I)
    requires
        after@ == before@.remove(id),
    ensures
        !after@.contains_key(id),
        after@.remove(id) == after@,
{
    assert(after@.remove(id) =~= after@);
}

impl<I: Eq + Hash + Copy, C> ComponentStorage<I, C> {
    /// Mutable access to the components of all slots, live or not, in slot
    /// order.
    pub fn as_mut_slice(&mut self) -> (r: &mut [C])
        requires
            old(self).well_formed(),
        ensures
            r@ == old(self).slot_values(),
            final(self).slot_values() == final(r)@,
            final(self).slots() == old(self).slots(),
            final(self).index() == old(self).index(),
            final(r)@.len() == r@.len() ==> final(self).well_formed(),
    {
        self.components.as_mut_slice()
    }

    /// The number of stored components.
    pub fn len(&self) -> (r: usize)
        requires
            self.well_formed(),
        ensures
            r == self@.len(),
    {
        assert(self@.dom() =~= self.id_to_index@.dom());
        self.id_to_index.len()
    }

    /// Whether no component is stored.
    pub fn is_empty(&self) -> (r: bool)
        requires
            self.well_formed(),
        ensures
            r == self@.dom().is_empty(),
    {
        assert(self@.dom() =~= self.id_to_index@.dom());
        self.id_to_index.is_empty()
    }

    /// The stored entity ids, in the order of their slots.
    pub fn ids(&self) -> (r: Vec<I>)
        requires
            self.well_formed(),
        ensures
            r@ == self.live_ids(),
            r@.no_duplicates(),
            r@.to_set() == self@.dom(),
    {
        proof {
            self.lemma_live_ids();
        }
        let mut r: Vec<I> = Vec::new();
        let mut i: usize = 0;
        while i < self.index_to_id.len()
            invariant
                self.well_formed(),
                i <= self.index_to_id@.len(),
                r@ == self.live_prefix(i as nat),
            decreases self.index_to_id@.len() - i,
        {
            let id = self.index_to_id[i];
            let live = match self.id_to_index.get(&id) {
                Some(j) => *j == i,
                None => false,
            };
            if live {
                r.push(id);
            }
            i = i + 1;
        }
        r
    }

    /// Releases spare capacity; the slots and the stored components do not
    /// change. (Capacity is not part of any view, so the contract says only
    /// that.)
    pub fn shrink_to_fit(&mut self)
        requires
            old(self).well_formed(),
        ensures
            final(self).well_formed(),
            final(self)@ == old(self)@,
            final(self).slots() == old(self).slots(),
            final(self).slot_values() == old(self).slot_values(),
            final(self).index() == old(self).index(),
    {
        shrink_map(&mut self.id_to_index);
        shrink_vec(&mut self.index_to_id);
        shrink_vec(&mut self.components);
        proof {
            assert forall|k: I| #[trigger] self.index().contains_key(k) implies self.index()[k] < self.slots().len()
                && self.slots()[self.index()[k] as int] == k by {
                assert(old(self).index().contains_key(k));
            }
        }
    }
}

impl<I, C> Default for ComponentStorage<I, C> {
    fn default() -> (r: Self)
        ensures
            r@ == Map::<I, C>::empty(),
            r.slots() == Seq::<I>::empty(),
            r.slot_values() == Seq::<C>::empty(),
            r.index() == Map::<I, usize>::empty(),
            vstd::std_specs::hash::obeys_key_model::<I>() ==> r.well_formed(),
    {
        let r = ComponentStorage {
            id_to_index: HashMap::new(),
            index_to_id: Vec::new(),
            components: Vec::new(),
        };
        assert(r@ =~= Map::<I, C>::empty());
        r
    }
}

/// A value of any type, with its type hidden: the form in which storages of
/// different component types report their components side by side.
pub trait Erased {}

impl<T> Erased for T {}

/// A component with its type hidden.
pub struct ErasedValue {
    pub value: Box<dyn Erased>,
}

/// `x` with its type hidden. Two components are reported as the same
/// exactly when their erased forms are equal.
pub open spec fn erase<T: 'static>(x: T) -> ErasedValue {
    ErasedValue { value: Box::new(x) }
}

/// Each value of `m` with its type hidden.
pub open spec fn erase_all<I, C: 'static>(m: Map<I, C>) -> Map<I, ErasedValue> {
    m.map_values(|c: C| erase(c))
}

/// Hiding the types commutes with giving a key a value.
pub proof fn lemma_erase_insert<I, C: 'static>(m: Map<I, C>, k: I, v: C)
    ensures
        erase_all(m.insert(k, v)) == erase_all(m).insert(k, erase(v)),
{
    assert(erase_all(m.insert(k, v)) =~= erase_all(m).insert(k, erase(v)));
}

/// Hiding the types commutes with taking a key away.
pub proof fn lemma_erase_remove<I, C: 'static>(m: Map<I, C>, k: I)
    ensures
        erase_all(m.remove(k)) == erase_all(m).remove(k),
{
    assert(erase_all(m.remove(k)) =~= erase_all(m).remove(k));
}

/// The operations on a component storage that do not depend on the
/// component type, so that storages of different types can sit side by side.
pub trait AnyComponentStorage<I> {
    /// The entities that have a component in this storage.
    spec fn stored_ids(&self) -> Set<I>;

    /// The component held for each stored entity, with its type hidden.
    spec fn erased_view(&self) -> Map<I, ErasedValue>;

    /// The storage's internal invariant.
    spec fn storage_valid(&self) -> bool;

    fn is_empty(&self) -> (r: bool)
        requires
            self.storage_valid(),
        ensures
            r == self.stored_ids().is_empty(),
    ;

    fn len(&self) -> (r: usize)
        requires
            self.storage_valid(),
        ensures
            r == self.stored_ids().len(),
    ;

    fn contains(&self, id: &I) -> (r: bool)
        requires
            self.storage_valid(),
        ensures
            r == self.stored_ids().contains(*id),
    ;

    /// The stored ids, each once.
    fn ids(&self) -> (r: Vec<I>)
        requires
            self.storage_valid(),
        ensures
            r@.no_duplicates(),
            r@.to_set() == self.stored_ids(),
    ;

    /// Drops the component of `id`, if there is one.
    fn delete(&mut self, id: &I)
        requires
            old(self).storage_valid(),
        ensures
            final(self).storage_valid(),
            final(self).stored_ids() == old(self).stored_ids().remove(*id),
            final(self).erased_view() == old(self).erased_view().remove(*id),
    ;

    fn shrink_to_fit(&mut self)
        requires
            old(self).storage_valid(),
        ensures
            final(self).storage_valid(),
            final(self).stored_ids() == old(self).stored_ids(),
            final(self).erased_view() == old(self).erased_view(),
    ;

    /// The storage itself, as a value whose type can be checked at run time.
    /// Such a value is opaque here; only the trusted downcasts use it.
    fn as_any(&self) -> AnyRef<'_>;

    /// The storage itself, mutably, as a value whose type can be checked at
    /// run time. Such a value is opaque here; only the trusted downcasts use it.
    fn as_any_mut(&mut self) -> AnyMut<'_>;
}

impl<I: Eq + Hash + Copy + 'static, C: 'static> AnyComponentStorage<I> for ComponentStorage<I, C> {
    open spec fn stored_ids(&self) -> Set<I> {
        self@.dom()
    }

    open spec fn erased_view(&self) -> Map<I, ErasedValue> {
        erase_all(self@)
    }

    open spec fn storage_valid(&self) -> bool {
        self.well_formed()
    }

    fn is_empty(&self) -> (r: bool) {
        ComponentStorage::is_empty(self)
    }

    fn len(&self) -> (r: usize) {
        ComponentStorage::len(self)
    }

    fn contains(&self, id: &I) -> (r: bool) {
        ComponentStorage::contains(self, id)
    }

    fn ids(&self) -> (r: Vec<I>) {
        ComponentStorage::ids(self)
    }

    fn delete(&mut self, id: &I)
        ensures
            final(self)@ == old(self)@.remove(*id),
    {
        self.remove(id);
        assert(self.erased_view() =~= old(self).erased_view().remove(*id));
    }

    fn shrink_to_fit(&mut self) {
        ComponentStorage::shrink_to_fit(self)
    }

    fn as_any(&self) -> AnyRef<'_> {
        any_ref(self)
    }

    fn as_any_mut(&mut self) -> AnyMut<'_> {
        any_mut(self)
    }
}

} // verus!
