use std::any::TypeId;
use vstd::prelude::*;

use crate::component_manager::{
    holds, insert_outcome, insert_value_outcome, reports, values_without_entity, without_entity, ComponentManager,
    ValueMap,
};
use crate::component_storage::swap_removed;
use crate::entity_manager::EntityManager;
use crate::system_manager::{only_visited_changed, visits_allowed, IntoOpaqueSystem, SystemEntry, SystemManager};

verus! {

/// A handle on a live entity, given out by `Engine::spawn` and taken back
/// by `Engine::despawn`.
pub struct Entity {
    id: usize,
}

impl View for Entity {
    type V = usize;

    /// The entity's id.
    closed spec fn view(&self) -> usize {
        self.id
    }
}

/// Entities, their components, and the systems that run over them.
pub struct Engine {
    entity_manager: EntityManager,
    component_manager: ComponentManager<usize>,
    system_manager: SystemManager<usize>,
}

impl Engine {
    /// The live entity ids.
    pub closed spec fn alive(&self) -> Seq<usize> {
        self.entity_manager.alive()
    }

    /// The despawned ids waiting to be reused; the last is reused first.
    pub closed spec fn dead(&self) -> Seq<usize> {
        self.entity_manager.dead()
    }

    /// The next id the counter will produce.
    pub closed spec fn next_id(&self) -> nat {
        self.entity_manager.next_id()
    }

    /// For each component type with a storage, the entities holding one.
    pub closed spec fn components(&self) -> Map<TypeId, Set<usize>> {
        self.component_manager@
    }

    /// For each component type with a storage, each holding entity's
    /// component, with its type hidden.
    pub closed spec fn component_values(&self) -> ValueMap<usize> {
        self.component_manager.values()
    }

    /// The components as the latest `run_systems` found them before each
    /// system ran, followed by the components it left.
    pub closed spec fn run_inputs(&self) -> Seq<ValueMap<usize>> {
        self.system_manager.run_inputs()
    }

    /// How many systems are scheduled.
    pub closed spec fn systems(&self) -> nat {
        self.system_manager.len()
    }

    /// The scheduled systems, in the order they were scheduled.
    pub closed spec fn scheduled(&self) -> Seq<SystemEntry<usize>> {
        self.system_manager.scheduled()
    }

    /// The component type keys of each scheduled system, in schedule order.
    pub closed spec fn system_keys(&self) -> Seq<Seq<TypeId>> {
        self.system_manager.system_keys()
    }

    /// For each system, the entities the latest `run_systems` applied it to,
    /// in order.
    pub closed spec fn last_run(&self) -> Seq<Seq<usize>> {
        self.system_manager.last_run()
    }

    /// The latest `run_systems` made one call of each system's closure for
    /// every entity recorded as visited by it (`last_run`), in order.
    pub closed spec fn systems_applied(&self) -> bool {
        self.system_manager.applied()
    }

    /// The parts are valid, and only live entities hold components.
    pub closed spec fn well_formed(&self) -> bool {
        &&& self.entity_manager.well_formed()
        &&& self.component_manager.well_formed()
        &&& self.system_manager.well_formed()
        &&& forall|k: TypeId, id: usize| #[trigger] holds(self.components(), k, id) ==> self.alive().contains(id)
    }

    /// Whether another entity can be spawned.
    pub open spec fn can_spawn(&self) -> bool {
        self.dead().len() > 0 || self.next_id() < usize::MAX
    }

    /// Brings a new entity to life, with no components. Its id is the most
    /// recently despawned one if there is one, else the next counter value.
    pub fn spawn(&mut self) -> (r: Entity)
        requires
            old(self).well_formed(),
            old(self).can_spawn(),
        ensures
            final(self).well_formed(),
            !old(self).alive().contains(r@),
            final(self).alive() == old(self).alive().push(r@),
            old(self).dead().len() > 0 ==> {
                &&& r@ == old(self).dead().last()
                &&& final(self).dead() == old(self).dead().drop_last()
                &&& final(self).next_id() == old(self).next_id()
            },
            old(self).dead().len() == 0 ==> {
                &&& r@ == old(self).next_id()
                &&& final(self).dead() == old(self).dead()
                &&& final(self).next_id() == old(self).next_id() + 1
            },
            final(self).components() == old(self).components(),
            final(self).component_values() == old(self).component_values(),
            final(self).systems() == old(self).systems(),
            final(self).scheduled() == old(self).scheduled(),
            final(self).system_keys() == old(self).system_keys(),
            final(self).last_run() == old(self).last_run(),
            final(self).run_inputs() == old(self).run_inputs(),
            forall|k: TypeId| !#[trigger] holds(final(self).components(), k, r@),
    {
        let id = self.entity_manager.spawn();
        proof {
            assert forall|k: TypeId| !#[trigger] holds(self.components(), k, id) by {
                if holds(old(self).components(), k, id) {
                    assert(old(self).alive().contains(id));
                }
            }
            assert forall|k: TypeId, x: usize| #[trigger] holds(self.components(), k, x) implies self.alive().contains(x) by {
                assert(holds(old(self).components(), k, x));
                assert(old(self).alive().contains(x));
                let p = choose|p: int| 0 <= p < old(self).alive().len() && old(self).alive()[p] == x;
                assert(self.alive()[p] == x);
            }
        }
        Entity { id }
    }

    /// Takes `entity` out of the world: all its components go (storages left
    /// empty are dropped) and its id waits to be reused.
    pub fn despawn(&mut self, entity: Entity)
        requires
            old(self).well_formed(),
            old(self).alive().contains(entity@),
        ensures
            final(self).well_formed(),
            final(self).components() == without_entity(old(self).components(), entity@),
            final(self).component_values() == values_without_entity(
                old(self).component_values(),
                old(self).components(),
                entity@,
            ),
            exists|i: int|
                0 <= i < old(self).alive().len() && old(self).alive()[i] == entity@ && final(self).alive()
                    == swap_removed(old(self).alive(), i),
            !final(self).alive().contains(entity@),
            final(self).alive().to_set() == old(self).alive().to_set().remove(entity@),
            final(self).dead() == old(self).dead().push(entity@),
            final(self).next_id() == old(self).next_id(),
            final(self).systems() == old(self).systems(),
            final(self).scheduled() == old(self).scheduled(),
            final(self).system_keys() == old(self).system_keys(),
            final(self).last_run() == old(self).last_run(),
            final(self).run_inputs() == old(self).run_inputs(),
    {
        self.component_manager.delete_entity_components(&entity.id);
        self.entity_manager.despawn(entity.id);
        proof {
            assert forall|k: TypeId, x: usize| #[trigger] holds(self.components(), k, x) implies self.alive().contains(x) by {
                assert(holds(old(self).components(), k, x));
                assert(x != entity@);
                assert(old(self).alive().contains(x));
                assert(old(self).alive().to_set().contains(x));
                assert(self.alive().to_set().contains(x));
            }
        }
    }

    /// Gives `entity` the component `component`, in place of any component
    /// of the same type it had; hands back nothing. (Should the storage
    /// filed under the key of `C` hold another type, which no contract here
    /// can rule out, nothing changes and `component` is handed back.)
    pub fn insert_entity_component<C: 'static>(&mut self, entity: &Entity, component: C) -> (r: Option<C>)
        requires
            old(self).well_formed(),
            old(self).alive().contains(entity@),
        ensures
            final(self).well_formed(),
            exists|k: TypeId| #[trigger] insert_outcome(old(self).components(), final(self).components(), k, entity@, component, r),
            exists|k: TypeId|
                #[trigger] insert_outcome(old(self).components(), final(self).components(), k, entity@, component, r)
                    && insert_value_outcome(old(self).component_values(), final(self).component_values(), k, entity@, component, r),
            final(self).alive() == old(self).alive(),
            final(self).dead() == old(self).dead(),
            final(self).next_id() == old(self).next_id(),
            final(self).systems() == old(self).systems(),
            final(self).scheduled() == old(self).scheduled(),
            final(self).system_keys() == old(self).system_keys(),
            final(self).last_run() == old(self).last_run(),
            final(self).run_inputs() == old(self).run_inputs(),
    {
        let r = self.component_manager.insert(entity.id, component);
        proof {
            let k0 = choose|k: TypeId| #[trigger] insert_outcome(old(self).components(), self.components(), k, entity@, component, r);
            assert forall|k: TypeId, x: usize| #[trigger] holds(self.components(), k, x) implies self.alive().contains(x) by {
                if x != entity@ {
                    if k == k0 && old(self).components().contains_key(k0) {
                        assert(holds(old(self).components(), k, x));
                    } else if k != k0 {
                        assert(holds(old(self).components(), k, x));
                    }
                }
            }
        }
        r
    }

    /// `entity`'s component of type `C`, if it has one.
    /// Success is decided at run time: the key is `TypeId::of::<C>()`, which no
    /// contract can name, and the storage filed under it is downcast to `C`.
    pub fn get_entity_component<C: 'static>(&self, entity: &Entity) -> (r: Option<&C>)
        requires
            self.well_formed(),
        ensures
            r is Some ==> exists|k: TypeId| #[trigger] holds(self.components(), k, entity@),
            (forall|k: TypeId| !#[trigger] holds(self.components(), k, entity@)) ==> r is None,
            r matches Some(c) ==> exists|k: TypeId|
                #[trigger] holds(self.components(), k, entity@) && reports(self.component_values(), k, entity@, *c),
    {
        let r = self.component_manager.get::<C>(&entity.id);
        proof {
            assert(self.components() == self.component_manager@);
            assert(entity@ == entity.id);
        }
        r
    }

    /// `entity`'s component of type `C`, if it has one (the same query as
    /// `get_entity_component`).
    /// Success is decided at run time: the key is `TypeId::of::<C>()`, which no
    /// contract can name, and the storage filed under it is downcast to `C`.
    pub fn entity_get_component<C: 'static>(&self, entity: &Entity) -> (r: Option<&C>)
        requires
            self.well_formed(),
        ensures
            r is Some ==> exists|k: TypeId| #[trigger] holds(self.components(), k, entity@),
            (forall|k: TypeId| !#[trigger] holds(self.components(), k, entity@)) ==> r is None,
            r matches Some(c) ==> exists|k: TypeId|
                #[trigger] holds(self.components(), k, entity@) && reports(self.component_values(), k, entity@, *c),
    {
        self.get_entity_component::<C>(entity)
    }

    /// Schedules `system`, a closure over mutable components, to run after
    /// the systems already scheduled.
    pub fn schedule<F, Input>(&mut self, system: F)
        where
            F: IntoOpaqueSystem<usize, Input>,
            <F as IntoOpaqueSystem<usize, Input>>::System: 'static,
        requires
            old(self).well_formed(),
            system.callable(),
        ensures
            final(self).well_formed(),
            final(self).systems() == old(self).systems() + 1,
            final(self).scheduled().drop_last() == old(self).scheduled(),
            final(self).scheduled().last().system.system_valid(),
            final(self).scheduled().last().system.keys().len() == system.arity(),
            final(self).system_keys().drop_last() == old(self).system_keys(),
            final(self).system_keys().last().len() == system.arity(),
            final(self).last_run() == old(self).last_run(),
            final(self).run_inputs() == old(self).run_inputs(),
            final(self).components() == old(self).components(),
            final(self).component_values() == old(self).component_values(),
            final(self).alive() == old(self).alive(),
            final(self).dead() == old(self).dead(),
            final(self).next_id() == old(self).next_id(),
    {
        self.system_manager.schedule(system);
        proof {
            assert forall|k: TypeId, x: usize| #[trigger] holds(self.components(), k, x) implies self.alive().contains(x) by {
                assert(holds(old(self).components(), k, x));
            }
        }
    }

    /// Runs every scheduled system once, in the order they were scheduled:
    /// each is applied once to every entity holding a component of each of
    /// its parameter types (see `visits_allowed`). The calls on the typed
    /// storages are made by `apply1` to `apply4`, whose contracts state what
    /// each call finds and leaves behind. Components change in value only.
    pub fn run_systems(&mut self)
        requires
            old(self).well_formed(),
        ensures
            final(self).well_formed(),
            final(self).system_keys() == old(self).system_keys(),
            final(self).last_run().len() == old(self).systems(),
            forall|i: int|
                0 <= i < old(self).systems() ==> visits_allowed(
                    old(self).components(),
                    #[trigger] old(self).system_keys()[i],
                    final(self).last_run()[i],
                ),
            final(self).systems_applied(),
            final(self).run_inputs().len() == old(self).systems() + 1,
            final(self).run_inputs()[0] == old(self).component_values(),
            final(self).run_inputs().last() == final(self).component_values(),
            forall|i: int|
                0 <= i < old(self).systems() ==> only_visited_changed(
                    #[trigger] final(self).run_inputs()[i],
                    final(self).run_inputs()[i + 1],
                    old(self).system_keys()[i],
                    final(self).last_run()[i],
                ),
            forall|i: int|
                0 <= i < old(self).systems() ==> (#[trigger] final(self).scheduled()[i]).system.found(
                    final(self).run_inputs()[i],
                    final(self).last_run()[i],
                ),
            final(self).components() == old(self).components(),
            final(self).alive() == old(self).alive(),
            final(self).dead() == old(self).dead(),
            final(self).next_id() == old(self).next_id(),
            final(self).systems() == old(self).systems(),
    {
        self.system_manager.run_systems(&mut self.component_manager);
        proof {
            assert forall|k: TypeId, x: usize| #[trigger] holds(self.components(), k, x) implies self.alive().contains(x) by {
                assert(holds(old(self).components(), k, x));
            }
        }
    }
}

/// Only live entities hold components: whatever the engine went through,
/// an entity that holds a component of some type is alive.
pub proof fn law_only_live_entities_hold_components(e: Engine, key: TypeId, id: usize)
    requires
        e.well_formed(),
    ensures
        holds(e.components(), key, id) ==> e.alive().contains(id),
{
}

impl Default for Engine {
    fn default() -> (r: Self)
        ensures
            r.well_formed(),
            r.alive() == Seq::<usize>::empty(),
            r.dead() == Seq::<usize>::empty(),
            r.next_id() == 0,
            r.components() == Map::<TypeId, Set<usize>>::empty(),
            r.systems() == 0,
            r.last_run() == Seq::<Seq<usize>>::empty(),
            r.component_values() == ValueMap::<usize>::empty(),
            r.run_inputs() == Seq::<ValueMap<usize>>::empty(),
    {
        Engine {
            entity_manager: EntityManager::default(),
            component_manager: ComponentManager::default(),
            system_manager: SystemManager::default(),
        }
    }
}

} // verus!
