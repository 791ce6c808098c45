//! Entities and the operations that producers send to a system.
use vstd::prelude::*;

verus! {

/// An opaque identifier; every table of the engine is keyed by it.
#[derive(Clone, Copy, Debug, PartialEq, Eq, Structural, Hash)]
pub struct Entity(pub u64);

impl Entity {
    /// The entity with the given identifier.
    pub fn from_id(id: u64) -> (r: Entity)
        ensures
            r.0 == id,
    {
        Entity(id)
    }

    /// The identifier of this entity.
    pub fn id(&self) -> (r: u64)
        ensures
            r == self.0,
    {
        self.0
    }
}

/// One edit of a keyed table, applied in arrival order.
#[derive(Clone, Copy, Debug, PartialEq, Eq, Structural)]
pub enum Operation<V> {
    /// Insert or replace the value bound to the entity.
    Upsert(Entity, V),
    /// Remove the entity's value.
    Delete(Entity),
}

impl<V> Operation<V> {
    pub open spec fn spec_key(&self) -> Entity {
        match self {
            Operation::Upsert(e, _) => *e,
            Operation::Delete(e) => *e,
        }
    }

    /// The entity this operation is about.
    pub fn key(&self) -> (r: Entity)
        ensures
            r == self.spec_key(),
    {
        match self {
            Operation::Upsert(e, _) => *e,
            Operation::Delete(e) => *e,
        }
    }
}

/// Looks a key up in a map, as an `Option`.
pub open spec fn lookup<K, V>(m: Map<K, V>, k: K) -> Option<V> {
    if m.contains_key(k) {
        Some(m[k])
    } else {
        None
    }
}

} // verus!
