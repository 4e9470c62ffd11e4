//! Deferred commands collected while resonators run: spawns, writes to
//! other entities and despawns, applied after the tick.

use vstd::prelude::*;
use crate::accessor::AttrOffset;
use crate::archetype::EntityId;

verus! {

/// Spawn one entity of a registered spawnable archetype; `overrides` replace
/// default values by attribute name.
pub struct SpawnRequest {
    pub archetype_name: String,
    pub overrides: Vec<(String, u64)>,
}

/// Write `value` at a resolved attribute position, if its entity is still
/// alive then.
#[derive(Clone, Copy, Debug)]
pub struct WriteRequest {
    pub target_offset: AttrOffset,
    pub value: u64,
}

/// Commands queued during a tick, each kind in the order queued.
pub struct CommandBuffer {
    pub spawn_requests: Vec<SpawnRequest>,
    pub write_requests: Vec<WriteRequest>,
    pub despawn_requests: Vec<EntityId>,
}

impl CommandBuffer {
    pub fn new() -> (c: Self)
        ensures
            c.spawn_requests@ == Seq::<SpawnRequest>::empty(),
            c.write_requests@ == Seq::<WriteRequest>::empty(),
            c.despawn_requests@ == Seq::<EntityId>::empty(),
    {
        CommandBuffer { spawn_requests: Vec::new(), write_requests: Vec::new(), despawn_requests: Vec::new() }
    }

    pub fn is_empty(&self) -> (b: bool)
        ensures
            b == (self.spawn_requests@.len() == 0 && self.write_requests@.len() == 0
                && self.despawn_requests@.len() == 0),
    {
        self.spawn_requests.len() == 0 && self.write_requests.len() == 0 && self.despawn_requests.len() == 0
    }

    /// Appends the commands of `other` after those of `self`, kind by kind.
    pub fn merge(&mut self, other: CommandBuffer)
        ensures
            final(self).spawn_requests@ == old(self).spawn_requests@ + other.spawn_requests@,
            final(self).write_requests@ == old(self).write_requests@ + other.write_requests@,
            final(self).despawn_requests@ == old(self).despawn_requests@ + other.despawn_requests@,
    {
        let CommandBuffer { spawn_requests: mut s, write_requests: mut w, despawn_requests: mut d } = other;
        self.spawn_requests.append(&mut s);
        self.write_requests.append(&mut w);
        self.despawn_requests.append(&mut d);
    }
}

impl Default for CommandBuffer {
    fn default() -> (c: Self)
        ensures
            c.spawn_requests@ == Seq::<SpawnRequest>::empty(),
            c.write_requests@ == Seq::<WriteRequest>::empty(),
            c.despawn_requests@ == Seq::<EntityId>::empty(),
    {
        Self::new()
    }
}

} // verus!
