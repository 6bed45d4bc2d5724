//! The boundary with the parts of std that the proofs do not model:
//! run-time type identity (`TypeId`, `Any`), boxing as trait objects, and
//! capacity release. Every item here is trusted: its contract is taken as
//! given.
use std::any::Any;
use std::any::TypeId;
use std::collections::HashMap;
use std::hash::Hash;
use vstd::prelude::*;

use crate::component_manager::StoreEntry;
use crate::component_storage::{erase_all, AnyComponentStorage, ComponentStorage};
use crate::system_manager::{OpaqueSystem, SystemEntry};

verus! {

/// `std::any::TypeId`, carried through as an opaque key.
#[verifier::external_type_specification]
#[verifier::external_body]
pub struct ExTypeId(TypeId);

/// Calls `TypeId::of::<C>()`. Nothing is stated of the result: it is a
/// function of the type `C` alone, which no contract here can name.
#[verifier::external_body]
pub fn type_key<C: 'static>() -> TypeId {
    TypeId::of::<C>()
}

/// Calls `<TypeId as PartialEq>::eq`, which compares the two identifiers by
/// value, so it holds exactly when the two keys are the same value.
#[verifier::external_body]
pub fn same_key(a: &TypeId, b: &TypeId) -> (r: bool)
    ensures
        r == (*a == *b),
{
    *a == *b
}

/// A shared reference to a value, as `&dyn Any`.
#[verifier::external_body]
pub struct AnyRef<'a> {
    inner: &'a dyn Any,
}

/// A mutable reference to a value, as `&mut dyn Any`.
#[verifier::external_body]
pub struct AnyMut<'a> {
    inner: &'a mut dyn Any,
}

/// Coerces `&T` to `&dyn Any`; nothing is stated of the result.
#[verifier::external_body]
pub fn any_ref<T: 'static>(t: &T) -> AnyRef<'_> {
    AnyRef { inner: t }
}

/// Coerces `&mut T` to `&mut dyn Any`; nothing is stated of the result.
#[verifier::external_body]
pub fn any_mut<T: 'static>(t: &mut T) -> AnyMut<'_> {
    AnyMut { inner: t }
}

/// Calls `<dyn Any>::downcast_ref` on the storage behind `s`, reached
/// through `AnyComponentStorage::as_any`. It succeeds when that storage
/// holds components of type `C`; on success the result is the very storage
/// `s` refers to, so it stores the same ids and components (`erased_view`
/// reports them with their type hidden) and is valid exactly when `s`
/// is. That rests on `as_any` handing back the storage itself, which the
/// trait's one implementation (for `ComponentStorage`, by `any_ref(self)`)
/// does; the trait is not reachable from outside the crate. When the
/// downcast succeeds is not stated.
#[verifier::external_body]
pub fn downcast_storage<'a, I: 'static, C: 'static>(
    s: &'a Box<dyn AnyComponentStorage<I>>,
) -> (r: Option<&'a ComponentStorage<I, C>>)
    ensures
        r matches Some(t) ==> {
            &&& t@.dom() == s.stored_ids()
            &&& t.well_formed() == s.storage_valid()
            &&& erase_all(t@) == s.erased_view()
        },
{
    s.as_any().inner.downcast_ref::<ComponentStorage<I, C>>()
}

/// Calls `<dyn Any>::downcast_mut` on the storage behind `s`, reached
/// through `AnyComponentStorage::as_any_mut`. On success the result is that
/// very storage, so what it holds (ids, components as `erased_view` reports
/// them, validity) before and after the borrow is what `s`
/// holds; on failure nothing changes. That rests on `as_any_mut` handing
/// back the storage itself, which the trait's one implementation (for
/// `ComponentStorage`, by `any_mut(self)`) does; the trait is not reachable
/// from outside the crate. When the downcast succeeds is not stated.
#[verifier::external_body]
pub fn downcast_storage_mut<'a, I: 'static, C: 'static>(
    s: &'a mut Box<dyn AnyComponentStorage<I>>,
) -> (r: Option<&'a mut ComponentStorage<I, C>>)
    ensures
        match r {
            Some(t) => {
                &&& t@.dom() == old(s).stored_ids()
                &&& t.well_formed() == old(s).storage_valid()
                &&& final(t)@.dom() == final(s).stored_ids()
                &&& final(t).well_formed() == final(s).storage_valid()
                &&& erase_all(t@) == old(s).erased_view()
                &&& erase_all(final(t)@) == final(s).erased_view()
            },
            None => *final(s) == *old(s),
        },
{
    s.as_any_mut().inner.downcast_mut::<ComponentStorage<I, C>>()
}

/// Files `s` under `key`, boxed as a trait object. Calls on the boxed
/// storage dispatch to the `ComponentStorage` impl of
/// `AnyComponentStorage`, so it reports the ids, components (type hidden)
/// and validity of `s`.
/// (What is known of a value is not carried across this unsizing coercion,
/// hence the stated contract.)
#[verifier::external_body]
pub fn new_entry<I: Eq + Hash + Copy + 'static, C: 'static>(key: TypeId, s: ComponentStorage<I, C>) -> (r:
    StoreEntry<I>)
    ensures
        r.key == key,
        r.store.stored_ids() == s@.dom(),
        r.store.storage_valid() == s.well_formed(),
        r.store.erased_view() == erase_all(s@),
{
    StoreEntry { key, store: Box::new(s) }
}

/// Calls `Vec::shrink_to_fit`, which releases capacity and keeps the elements.
#[verifier::external_body]
pub fn shrink_vec<T>(v: &mut Vec<T>)
    ensures
        final(v)@ == old(v)@,
{
    v.shrink_to_fit()
}

/// Calls `HashMap::shrink_to_fit`, which releases capacity and keeps the entries.
#[verifier::external_body]
pub fn shrink_map<K: Eq + Hash, V>(m: &mut HashMap<K, V>)
    ensures
        final(m)@ == old(m)@,
{
    m.shrink_to_fit()
}

/// Boxes `system` as a trait object. Calls on the boxed system dispatch to
/// the impl for `S`, so it reports the keys and validity of `system`.
/// (What is known of a value is not carried across this unsizing coercion,
/// hence the stated contract.)
#[verifier::external_body]
pub fn new_system_entry<Id, S: OpaqueSystem<Id> + 'static>(system: S) -> (r: SystemEntry<Id>)
    ensures
        r.system.keys() == system.keys(),
        r.system.system_valid() == system.system_valid(),
{
    SystemEntry { system: Box::new(system) }
}

} // verus!
