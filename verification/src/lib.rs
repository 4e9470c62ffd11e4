//! Resonance Engine core: a deterministic entity-component store with
//! generational entity ids, archetype-based attribute storage and relations.

pub mod accessor;
pub mod archetype;
pub mod context;
pub mod entity;
pub mod events;
pub mod graph;
pub mod interning;
pub mod prefab;
pub mod profiler;
pub mod query;
pub mod relations;
pub mod resonator;
pub mod scheduler;
pub mod serialization;
pub mod spatial;
pub mod storage;
pub mod typed_attrs;
pub mod world;

pub use accessor::{read_at, write_at, AttrOffset, EntityAccessor, EntityRef};
pub use archetype::EntityId;
pub use context::{CommandBuffer, SpawnRequest, WriteRequest};
pub use entity::EntityHandle;
pub use graph::{
    ExecutionPhase, ExecutionPlan, GraphEdge, GraphError, GraphNode, GraphQuery, MetaGraph,
    SystemHandle, TraversalMode,
};
pub use prefab::WorldPrefabExt;
pub use profiler::Profiler;
pub use query::QueryBuilder;
pub use relations::{Relation, RelationGraph};
pub use resonator::FieldMap;
pub use serialization::{EntitySnapshot, SchemaSnapshot};
pub use storage::{BufferMode, FieldIndex};
pub use typed_attrs::TypedAttr;
pub use world::{BuildWarning, World};
