//! Effect - the operations a plan performs on infrastructure.

use vstd::prelude::*;

use crate::resource::{Resource, ResourceId, State};

verus! {

/// One operation on a resource.
#[derive(Debug, Clone)]
pub enum Effect {
    /// Read the current state of a resource
    Read { resource: Resource },
    /// Create a resource
    Create(Resource),
    /// Update a resource from its current state to the desired one
    Update { id: ResourceId, from: State, to: Resource },
    /// Delete a resource
    Delete(ResourceId),
}

/// A class of effects that plan summaries count.
#[derive(Debug, Clone, Copy, PartialEq, Eq, Structural)]
pub enum EffectClass {
    Read,
    Create,
    Update,
    Delete,
    /// Every effect but a read
    Mutating,
}

/// Whether an effect belongs to a class.
pub open spec fn in_class(e: Effect, c: EffectClass) -> bool {
    match c {
        EffectClass::Read => e is Read,
        EffectClass::Create => e is Create,
        EffectClass::Update => e is Update,
        EffectClass::Delete => e is Delete,
        EffectClass::Mutating => e.spec_is_mutating(),
    }
}

impl Effect {
    /// Whether the effect changes infrastructure (anything but a read).
    pub open spec fn spec_is_mutating(&self) -> bool {
        !(self is Read)
    }

    /// Whether the effect changes infrastructure (anything but a read).
    pub fn is_mutating(&self) -> (r: bool)
        ensures
            r == self.spec_is_mutating(),
    {
        match self {
            Effect::Read { .. } => false,
            _ => true,
        }
    }

    /// The identifier of the resource the effect is about.
    pub open spec fn target(&self) -> ResourceId {
        match self {
            Effect::Read { resource } => resource.id,
            Effect::Create(r) => r.id,
            Effect::Update { id, .. } => *id,
            Effect::Delete(id) => *id,
        }
    }
}

} // verus!
