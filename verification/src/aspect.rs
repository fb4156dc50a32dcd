//! Aspects: what a system asks of the entities it works on.

use crate::entity::Entity;
use crate::entity::TypeKey;
use vstd::prelude::*;

verus! {

/// Data for systems, storing which components they should be interested in.
pub struct Aspect {
    /// An entity must have a component of each of these types.
    pub accept_types: Vec<TypeKey>,
    /// An entity must have no component of any of these types.
    pub not_accept_types: Vec<TypeKey>,
    /// For an aspect that selects a system's additional entities: whether
    /// the system still runs when the aspect selects none.
    pub optional: bool,
}

impl Aspect {
    /// The types an entity must have.
    pub open spec fn required(&self) -> Set<TypeKey> {
        self.accept_types@.to_set()
    }

    /// The types an entity must not have.
    pub open spec fn excluded(&self) -> Set<TypeKey> {
        self.not_accept_types@.to_set()
    }

    /// Whether an entity whose live components have exactly the types
    /// `present` satisfies the aspect: every required type is there, and no
    /// excluded one. `optional` plays no part.
    pub open spec fn accepts(&self, present: Set<TypeKey>) -> bool {
        &&& forall|key: TypeKey| #[trigger] self.required().contains(key) ==> present.contains(key)
        &&& forall|key: TypeKey| #[trigger] self.excluded().contains(key) ==> !present.contains(key)
    }

    /// An aspect with the given lists and flag.
    pub open spec fn made_of(&self, accept: Seq<TypeKey>, reject: Seq<TypeKey>, optional: bool) -> bool {
        &&& self.accept_types@ =~= accept
        &&& self.not_accept_types@ =~= reject
        &&& self.optional == optional
    }

    pub fn check<C>(&self, entity: &Entity<C>) -> (ok: bool)
        ensures
            ok == self.accepts(entity@.types()),
    {
        let mut i: usize = 0;
        while i < self.accept_types.len()
            invariant
                i <= self.accept_types@.len(),
                forall|j: int| 0 <= j < i ==> entity@.has(#[trigger] self.accept_types@[j]),
            decreases self.accept_types@.len() - i,
        {
            if !entity.has_component(self.accept_types[i]) {
                assert(self.required().contains(self.accept_types@[i as int]));
                return false;
            }
            i = i + 1;
        }
        let mut k: usize = 0;
        while k < self.not_accept_types.len()
            invariant
                k <= self.not_accept_types@.len(),
                forall|j: int| 0 <= j < k ==> !entity@.has(#[trigger] self.not_accept_types@[j]),
            decreases self.not_accept_types@.len() - k,
        {
            if entity.has_component(self.not_accept_types[k]) {
                assert(self.excluded().contains(self.not_accept_types@[k as int]));
                return false;
            }
            k = k + 1;
        }
        true
    }

    /// The aspect of the entities that have a component of type `key`.
    pub fn all(key: TypeKey) -> (aspect: Aspect)
        ensures
            aspect.made_of(seq![key], seq![], false),
    {
        Aspect { accept_types: vec![key], not_accept_types: Vec::new(), optional: false }
    }

    pub fn all2(key: TypeKey, key1: TypeKey) -> (aspect: Aspect)
        ensures
            aspect.made_of(seq![key, key1], seq![], false),
    {
        Aspect { accept_types: vec![key, key1], not_accept_types: Vec::new(), optional: false }
    }

    pub fn all3(key: TypeKey, key1: TypeKey, key2: TypeKey) -> (aspect: Aspect)
        ensures
            aspect.made_of(seq![key, key1, key2], seq![], false),
    {
        Aspect {
            accept_types: vec![key, key1, key2],
            not_accept_types: Vec::new(),
            optional: false,
        }
    }

    pub fn all4(key: TypeKey, key1: TypeKey, key2: TypeKey, key3: TypeKey) -> (aspect: Aspect)
        ensures
            aspect.made_of(seq![key, key1, key2, key3], seq![], false),
    {
        Aspect {
            accept_types: vec![key, key1, key2, key3],
            not_accept_types: Vec::new(),
            optional: false,
        }
    }

    pub fn all5(
        key: TypeKey,
        key1: TypeKey,
        key2: TypeKey,
        key3: TypeKey,
        key4: TypeKey,
    ) -> (aspect: Aspect)
        ensures
            aspect.made_of(seq![key, key1, key2, key3, key4], seq![], false),
    {
        Aspect {
            accept_types: vec![key, key1, key2, key3, key4],
            not_accept_types: Vec::new(),
            optional: false,
        }
    }

    /// The same aspect, marked as one that may select nothing.
    pub fn optional(self) -> (aspect: Aspect)
        ensures
            aspect.made_of(self.accept_types@, self.not_accept_types@, true),
    {
        Aspect {
            accept_types: self.accept_types,
            not_accept_types: self.not_accept_types,
            optional: true,
        }
    }

    /// The same aspect without the entities that have a component of type
    /// `key`. Nothing else changes: an optional aspect stays optional.
    pub fn except(self, key: TypeKey) -> (aspect: Aspect)
        ensures
            aspect.made_of(self.accept_types@, self.not_accept_types@.push(key), self.optional),
    {
        let mut not_accept_types = self.not_accept_types;
        not_accept_types.push(key);
        Aspect { accept_types: self.accept_types, not_accept_types, optional: self.optional }
    }

    pub fn except2(self, key: TypeKey, key1: TypeKey) -> (aspect: Aspect)
        ensures
            aspect.made_of(
                self.accept_types@,
                self.not_accept_types@.push(key).push(key1),
                self.optional,
            ),
    {
        let mut not_accept_types = self.not_accept_types;
        not_accept_types.push(key);
        not_accept_types.push(key1);
        Aspect { accept_types: self.accept_types, not_accept_types, optional: self.optional }
    }

    pub fn except3(self, key: TypeKey, key1: TypeKey, key2: TypeKey) -> (aspect: Aspect)
        ensures
            aspect.made_of(
                self.accept_types@,
                self.not_accept_types@.push(key).push(key1).push(key2),
                self.optional,
            ),
    {
        let mut not_accept_types = self.not_accept_types;
        not_accept_types.push(key);
        not_accept_types.push(key1);
        not_accept_types.push(key2);
        Aspect { accept_types: self.accept_types, not_accept_types, optional: self.optional }
    }
}

} // verus!
