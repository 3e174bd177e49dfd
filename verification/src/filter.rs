use vstd::prelude::*;
use crate::component::{Components, TypeKey};
use crate::entity::EntityId;

verus! {

/// Lets through the entities that own a component of the given type.
#[derive(Debug, Copy, Clone, PartialEq, Eq, Structural)]
pub struct With(pub TypeKey);

/// Lets through the entities that own no component of the given type.
#[derive(Debug, Copy, Clone, PartialEq, Eq, Structural)]
pub struct Without(pub TypeKey);

impl With {
    pub fn filter<T>(&self, components: &Components<T>, entity: EntityId) -> (pass: bool)
        requires
            components.wf(),
        ensures
            pass == components.has(self.0, entity),
    {
        components.has_component(self.0, entity)
    }
}

impl Without {
    pub fn filter<T>(&self, components: &Components<T>, entity: EntityId) -> (pass: bool)
        requires
            components.wf(),
        ensures
            pass == !components.has(self.0, entity),
    {
        !components.has_component(self.0, entity)
    }
}

/// A conjunction of filters: an entity passes if it passes every one of
/// them.
pub struct FilterParams {
    with: Vec<With>,
    without: Vec<Without>,
}

impl FilterParams {
    /// The types that an entity must own a component of.
    pub closed spec fn with(&self) -> Seq<With> {
        self.with@
    }

    /// The types that an entity must own no component of.
    pub closed spec fn without(&self) -> Seq<Without> {
        self.without@
    }

    /// Whether an entity passes, given the components of the world.
    pub open spec fn accepts<T>(&self, view: Map<usize, Map<usize, T>>, entity: EntityId) -> bool {
        &&& forall|i: int|
            0 <= i < self.with().len() ==> owns(view, (#[trigger] self.with()[i]).0, entity)
        &&& forall|i: int|
            0 <= i < self.without().len() ==> !owns(view, (#[trigger] self.without()[i]).0, entity)
    }

    /// The filter that lets every entity through.
    pub fn new() -> (filter: Self)
        ensures
            filter.with().len() == 0,
            filter.without().len() == 0,
    {
        FilterParams { with: Vec::new(), without: Vec::new() }
    }

    /// This filter and `term`.
    pub fn and_with(self, term: With) -> (filter: Self)
        ensures
            filter.with() == self.with().push(term),
            filter.without() == self.without(),
    {
        let mut filter = self;
        filter.with.push(term);
        filter
    }

    /// This filter and `term`.
    pub fn and_without(self, term: Without) -> (filter: Self)
        ensures
            filter.with() == self.with(),
            filter.without() == self.without().push(term),
    {
        let mut filter = self;
        filter.without.push(term);
        filter
    }

    /// Whether the entity passes every filter of the conjunction.
    pub fn filter<T>(&self, components: &Components<T>, entity: EntityId) -> (pass: bool)
        requires
            components.wf(),
        ensures
            pass == self.accepts(components@, entity),
    {
        let mut i: usize = 0;
        while i < self.with.len()
            invariant
                i <= self.with.len(),
                components.wf(),
                forall|k: int|
                    0 <= k < i ==> owns(components@, (#[trigger] self.with()[k]).0, entity),
            decreases self.with.len() - i,
        {
            if !self.with[i].filter(components, entity) {
                assert(!owns(components@, self.with()[i as int].0, entity));
                return false;
            }
            i = i + 1;
        }
        let mut j: usize = 0;
        while j < self.without.len()
            invariant
                j <= self.without.len(),
                components.wf(),
                forall|k: int|
                    0 <= k < self.with().len() ==> owns(
                        components@,
                        (#[trigger] self.with()[k]).0,
                        entity,
                    ),
                forall|k: int|
                    0 <= k < j ==> !owns(components@, (#[trigger] self.without()[k]).0, entity),
            decreases self.without.len() - j,
        {
            if !self.without[j].filter(components, entity) {
                assert(owns(components@, self.without()[j as int].0, entity));
                return false;
            }
            j = j + 1;
        }
        true
    }
}

/// Whether `entity` owns a component of type `key`, given the components of
/// the world.
pub open spec fn owns<T>(view: Map<usize, Map<usize, T>>, key: TypeKey, entity: EntityId) -> bool {
    view.contains_key(key.0) && view[key.0].contains_key(entity.0)
}

} // verus!
