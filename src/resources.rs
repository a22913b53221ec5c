use vstd::prelude::*;
use std::rc::Rc;
use crate::component::TypeKey;
use crate::registry::TypeMap;

verus! {

/// A shared, reference-counted handle to a resource value; the last handle released frees it.
pub struct Resource<R> {
    pub value: Rc<R>,
    pub type_id: TypeKey,
}

/// Relies on `Rc::clone`: the new handle points to the same allocation, so it holds the same value.
#[verifier::external_body]
fn share<R>(value: &Rc<R>) -> (r: Rc<R>)
    ensures
        *r == **value,
{
    Rc::clone(value)
}

impl<R> Resource<R> {
    /// A first handle to `value`, stored as a resource of type `type_id`.
    pub fn new(type_id: TypeKey, value: R) -> (r: Self)
        ensures
            *r.value == value,
            r.type_id == type_id,
    {
        Resource { value: Rc::new(value), type_id }
    }

    /// The shared value.
    pub fn get(&self) -> (r: &R)
        ensures
            *r == *self.value,
    {
        &*self.value
    }

    /// Another handle to the same value.
    pub fn share(&self) -> (r: Self)
        ensures
            *r.value == *self.value,
            r.type_id == self.type_id,
    {
        Resource { value: share(&self.value), type_id: self.type_id }
    }
}

/// One shared value per resource type.
pub struct ResourceManager<R> {
    pub resources: TypeMap<Resource<R>>,
}

impl<R> ResourceManager<R> {
    /// The value held for each resource type.
    pub open spec fn values(&self) -> Map<TypeKey, R> {
        Map::new(
            |k: TypeKey| self.resources@.contains_key(k),
            |k: TypeKey| *self.resources@[k].value,
        )
    }

    /// Each handle is filed under its own type, with no type filed twice.
    pub open spec fn wf(&self) -> bool {
        &&& self.resources.wf()
        &&& forall|k: TypeKey| #[trigger] self.resources@.contains_key(k) ==> self.resources@[k].type_id == k
    }

    pub fn new() -> (r: Self)
        ensures
            r.wf(),
            r.values() == Map::<TypeKey, R>::empty(),
    {
        let r = ResourceManager { resources: TypeMap::new() };
        assert(r.values() =~= Map::<TypeKey, R>::empty());
        r
    }

    /// Stores `resource` as the value of type `type_id`, replacing an earlier one.
    pub fn add(&mut self, type_id: TypeKey, resource: R)
        requires
            old(self).wf(),
        ensures
            final(self).wf(),
            final(self).values() == old(self).values().insert(type_id, resource),
    {
        self.resources.insert(type_id, Resource::new(type_id, resource));
        assert(self.values() =~= old(self).values().insert(type_id, resource));
    }

    /// A new handle to the value of type `type_id`, if one was added.
    pub fn get_resource(&self, type_id: TypeKey) -> (r: Option<Resource<R>>)
        requires
            self.wf(),
        ensures
            r.is_some() == self.values().contains_key(type_id),
            r matches Some(h) ==> *h.value == self.values()[type_id] && h.type_id == type_id,
    {
        match self.resources.get(type_id) {
            Some(h) => Some(h.share()),
            None => None,
        }
    }
}

} // verus!
