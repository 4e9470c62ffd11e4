use resonance_engine::context::CommandBuffer;
use resonance_engine::entity::EntityHandle;
use resonance_engine::relations::Relation;
use resonance_engine::storage::BufferMode;
use resonance_engine::typed_attrs::TypedAttr;
use resonance_engine::world::World;
use resonance_engine::query::{count_with, with_attr};
use resonance_engine::serialization::SchemaSnapshot;

struct Parent;
impl Relation for Parent {
    const NAME: &'static str = "Parent";
}

struct Health;
impl TypedAttr for Health {
    const NAME: &'static str = "health";
}

struct Frozen;
impl TypedAttr for Frozen {
    const NAME: &'static str = "frozen";
    const IS_TAG: bool = true;
}

fn bits(x: f64) -> u64 {
    x.to_bits()
}

fn two_creatures(world: &mut World) -> (EntityHandle, EntityHandle) {
    let a = world.entity("Creature").attr("energy", bits(10.0)).attr("x", bits(1.0)).done();
    let b = world.entity("Creature").attr("energy", bits(20.0)).attr("x", bits(2.0)).done();
    world.build();
    (a, b)
}

#[test]
fn build_places_queued_entities_with_their_values() {
    let mut world = World::new();
    let (a, b) = two_creatures(&mut world);
    assert!(world.is_alive(a));
    assert!(world.is_alive(b));
    assert_eq!(world.archetype_count(), 1);
    assert_eq!(world.read(a, "energy"), Some(bits(10.0)));
    assert_eq!(world.read(b, "x"), Some(bits(2.0)));
    assert_eq!(world.read(a, "missing"), None);
    assert_eq!(world.alive_count(), 2);
    assert_eq!(world.layout_version(), 2);
}

#[test]
fn read_gives_back_what_write_wrote() {
    let mut world = World::new();
    let (a, b) = two_creatures(&mut world);
    assert!(world.write(a, "energy", bits(42.5)));
    assert_eq!(world.read(a, "energy"), Some(bits(42.5)));
    assert_eq!(world.read(b, "energy"), Some(bits(20.0)));
    assert!(!world.write(a, "unknown", 7));
}

#[test]
fn entities_with_other_fields_get_their_own_archetype() {
    let mut world = World::new();
    let a = world.entity("A").attr("p", 1).done();
    let b = world.entity("B").attr("q", 2).done();
    let c = world.entity("A2").attr("p", 3).done();
    world.build();
    assert_eq!(world.archetype_count(), 2);
    assert_eq!(world.location(a).unwrap().archetype_idx, world.location(c).unwrap().archetype_idx);
    assert_ne!(world.location(a).unwrap().archetype_idx, world.location(b).unwrap().archetype_idx);
}

#[test]
fn despawn_removes_the_entity_and_its_relations() {
    let mut world = World::new();
    let (a, b) = two_creatures(&mut world);
    world.add_relation::<Parent>(a, b);
    assert_eq!(world.get_relation::<Parent>(a), Some(b));
    world.despawn(b);
    assert!(!world.is_alive(b));
    assert_eq!(world.read(b, "energy"), None);
    assert_eq!(world.get_relation::<Parent>(a), None);
    assert_eq!(world.alive_count(), 1);
    assert!(world.is_alive(a));
}

#[test]
fn reused_slot_gets_a_new_generation() {
    let mut world = World::new();
    let (a, _b) = two_creatures(&mut world);
    world.despawn(a);
    let c = world.entity("Creature").attr("energy", 5).attr("x", 6).done();
    assert_eq!(c.0.index, a.0.index);
    assert_eq!(c.0.generation, a.0.generation + 1);
    world.spawn_runtime();
    assert!(world.is_alive(c));
    assert!(!world.is_alive(a));
    assert_eq!(world.read(c, "energy"), Some(5));
}

#[test]
fn spawn_runtime_uses_the_existing_archetype() {
    let mut world = World::new();
    let (_a, _b) = two_creatures(&mut world);
    let version = world.layout_version();
    let c = world.entity("Creature").attr("energy", 1).attr("x", 2).done();
    world.spawn_runtime();
    assert_eq!(world.layout_version(), version);
    assert_eq!(world.archetype_count(), 1);
    assert_eq!(world.read(c, "x"), Some(2));
}

#[test]
fn relations_follow_both_directions() {
    let mut world = World::new();
    let p = world.entity("N").attr("v", 0).done();
    let c1 = world.entity("N").attr("v", 1).done();
    let c2 = world.entity("N").attr("v", 2).done();
    world.build();
    world.add_relation::<Parent>(c1, p);
    world.add_relation::<Parent>(c2, p);
    assert_eq!(world.get_all_relations::<Parent>(c1), vec![p]);
    assert_eq!(world.get_reverse_relations::<Parent>(p), vec![c1, c2]);
    assert!(world.has_relation::<Parent>(c2));
    world.remove_relation::<Parent>(c2, p);
    assert!(!world.has_relation::<Parent>(c2));
    assert_eq!(world.get_reverse_relations::<Parent>(p), vec![c1]);
    world.remove_all_relations::<Parent>(c1);
    assert_eq!(world.get_reverse_relations::<Parent>(p), Vec::<EntityHandle>::new());
}

#[test]
fn typed_attributes_and_tags() {
    let mut world = World::new();
    let a = world.entity("T").attr_typed::<Health>(100).tag_typed::<Frozen>().done();
    let b = world.entity("U").attr_typed::<Health>(50).done();
    world.build();
    assert_eq!(world.read_typed::<Health>(a), Some(100));
    assert!(world.write_typed::<Health>(b, 60));
    assert_eq!(world.read_typed::<Health>(b), Some(60));
    assert!(world.has_tag::<Frozen>(a));
    assert!(!world.has_tag::<Frozen>(b));
    assert!(world.has_attr::<Health>(b));
    assert_eq!(count_with::<Frozen>(&world), 1);
    assert_eq!(with_attr::<Health>(&world).len(), 2);
    let q = world.query().with::<Health>().without::<Frozen>().execute();
    assert_eq!(q, vec![b]);
}

#[test]
fn double_buffered_tick_reads_start_of_tick_values() {
    let mut world = World::new();
    let (a, _b) = two_creatures(&mut world);
    world.set_buffer_mode(BufferMode::Double);
    let offset = world.absolute_offset::<Energy>(a).unwrap();
    world.begin_tick();
    world.tick_write(offset.offset, 99);
    assert_eq!(world.tick_read(offset.offset), bits(10.0));
    assert_eq!(world.tick_read_own(offset.offset), 99);
    let removed = world.finish_tick(Vec::new(), CommandBuffer::new());
    assert_eq!(removed, 0);
    assert_eq!(world.read(a, "energy"), Some(99));
}

struct Energy;
impl TypedAttr for Energy {
    const NAME: &'static str = "energy";
}

#[test]
fn finish_tick_removes_requested_entities() {
    let mut world = World::new();
    let (a, b) = two_creatures(&mut world);
    world.begin_tick();
    let removed = world.finish_tick(vec![a.0], CommandBuffer::new());
    assert_eq!(removed, 1);
    assert!(!world.is_alive(a));
    assert!(world.is_alive(b));
}

#[test]
fn spawn_deferred_uses_registered_defaults_and_overrides() {
    let mut world = World::new();
    let (_a, _b) = two_creatures(&mut world);
    world.register_spawnable("Creature", &["energy", "x"], &[bits(7.0), bits(8.0)]);
    world.build();
    let s = world.spawn_deferred("Creature", &[("x".to_string(), bits(3.0))]).unwrap();
    assert_eq!(world.read(s, "energy"), Some(bits(7.0)));
    assert_eq!(world.read(s, "x"), Some(bits(3.0)));
    assert_eq!(world.spawn_deferred("Nothing", &[]), None);
}

#[test]
fn process_commands_applies_despawns() {
    let mut world = World::new();
    let (a, b) = two_creatures(&mut world);
    let mut commands = CommandBuffer::new();
    commands.despawn_requests.push(b.0);
    world.process_commands(commands);
    assert!(world.is_alive(a));
    assert!(!world.is_alive(b));
}

#[test]
fn snapshot_and_restore_keep_values() {
    let mut world = World::new();
    let (a, _b) = two_creatures(&mut world);
    world.write(a, "energy", bits(1.5));
    let snap = world.snapshot();
    assert_eq!(snap.entity_count(), 2);
    let mut other = World::new();
    assert!(other.restore(snap).is_ok());
    other.build();
    let h = other.get_handle_by_index(0).unwrap();
    assert_eq!(other.read(h, "energy"), Some(bits(1.5)));
    assert_eq!(other.alive_count(), 2);
}

#[test]
fn restore_of_empty_snapshot_gives_an_empty_world() {
    let mut world = World::new();
    let (_a, _b) = two_creatures(&mut world);
    assert!(world.restore(SchemaSnapshot::new(1)).is_ok());
    assert_eq!(world.archetype_count(), 0);
    assert_eq!(world.meta_graph.node_count(), 0);
}

#[test]
fn phases_group_archetypes_and_the_rest_runs_last() {
    let mut world = World::new();
    world.entity("A").attr("p", 1).done();
    world.entity("B").attr("q", 2).done();
    world.entity("C").attr("r", 3).done();
    world.build();
    assert!(!world.has_phases());
    assert_eq!(world.tick_schedule(), vec![vec![0, 1, 2]]);
    world.add_phase("physics");
    world.assign_phase("B", "physics");
    assert!(world.has_phases());
    assert_eq!(world.tick_schedule(), vec![vec![1], vec![0, 2]]);
}

#[test]
fn graph_nodes_follow_build_and_despawn() {
    let mut world = World::new();
    let (a, b) = two_creatures(&mut world);
    assert_eq!(world.meta_graph.node_count(), 2);
    world.meta_graph.add_relation(b, resonance_engine::graph::GraphEdge::ChildOf, a).unwrap();
    assert_eq!(world.meta_graph.query_children(a), vec![b]);
    world.despawn(b);
    assert_eq!(world.meta_graph.node_count(), 1);
    assert_eq!(world.meta_graph.query_children(a), Vec::<EntityHandle>::new());
}

#[test]
fn build_warnings_name_archetypes_without_resonators() {
    let mut world = World::new();
    world.entity("Lonely").attr("p", 1).done();
    let warnings = world.build_with_validation();
    assert_eq!(warnings.len(), 1);
    match &warnings[0] {
        resonance_engine::world::BuildWarning::EntityWithoutResonators { archetype_name, entity_count } => {
            assert_eq!(archetype_name, "Lonely");
            assert_eq!(*entity_count, 1);
        }
        _ => panic!("unexpected warning"),
    }
}

#[test]
fn registered_resonators_attach_to_new_archetypes() {
    let mut world = World::new();
    world.register_resonator("Mover");
    assert!(world.is_registered("Mover"));
    assert!(!world.is_registered("Other"));
    world.entity("M").attr("p", 1).resonator_type("Mover").resonator_type("Other").done();
    world.build();
    assert_eq!(world.archetype_at(0).resonator_count(), 1);
    let info = world.archetype_info();
    assert_eq!(info[0].name, "M");
    assert_eq!(info[0].alive, 1);
}

#[test]
fn accessor_reads_and_goes_stale_after_a_layout_change() {
    let mut world = World::new();
    let (a, _b) = two_creatures(&mut world);
    let acc = resonance_engine::accessor::EntityAccessor::new(&world, a, &["energy", "x"]).unwrap();
    assert_eq!(acc.slot_count(), 2);
    assert_eq!(acc.get(&world, 1), bits(1.0));
    acc.set(&mut world, 0, 77);
    assert_eq!(world.read(a, "energy"), Some(77));
    assert!(!acc.is_stale(&world));
    world.entity("Other").attr("z", 1).done();
    world.build();
    assert!(acc.is_stale(&world));
    assert!(resonance_engine::accessor::EntityAccessor::new(&world, a, &["nope"]).is_none());
}

#[test]
fn entity_ref_reads_typed_values() {
    let mut world = World::new();
    let a = world.entity("T").attr_typed::<Health>(9).done();
    world.build();
    let r = world.entity_ref(a).unwrap();
    assert_eq!(r.get::<Health>(&world), Some(9));
    assert!(r.set::<Health>(&mut world, 11));
    assert_eq!(world.read_typed::<Health>(a), Some(11));
}

struct Boss;
impl TypedAttr for Boss {
    const NAME: &'static str = "boss";
    const IS_TAG: bool = true;
}

#[test]
fn requiring_an_unknown_tag_selects_nothing() {
    let mut world = World::new();
    two_creatures(&mut world);
    assert!(world.alive_count() > 0);
    assert!(world.query().with::<Boss>().execute().is_empty());
    assert_eq!(world.query().with::<Boss>().first(), None);
    assert_eq!(world.query().without::<Boss>().count(), world.alive_count());
}

#[test]
fn every_archetype_is_scheduled_once_whatever_the_phases() {
    let mut world = World::new();
    world.entity("A").attr("p", 1).done();
    world.entity("B").attr("q", 2).done();
    world.entity("C").attr("r", 3).done();
    world.build();
    world.add_phase("physics");
    world.add_phase("physics");
    world.assign_phase("B", "physics");
    world.assign_phase("C", "render");
    assert_eq!(world.tick_schedule(), vec![vec![1], vec![], vec![0, 2]]);
}

#[test]
fn query_filters_keep_what_the_predicate_accepts() {
    let mut world = World::new();
    let (a, b) = two_creatures(&mut world);
    let kept = world.query().with::<Energy>().filter(|e, w| w.read(e, "energy") == Some(bits(10.0))).execute();
    assert_eq!(kept, vec![a]);
    assert!(world.query().with::<Energy>().filter(|_, _| false).execute().is_empty());
    assert_eq!(world.query().with::<Energy>().filter(|_, _| true).execute(), vec![a, b]);
    assert_eq!(world.query().with::<Energy>().filter(|e, w| w.read(e, "energy") == Some(bits(20.0))).count(), 1);
    assert_eq!(world.query().with::<Energy>().filter(|e, w| w.read(e, "x") == Some(bits(2.0))).first(), Some(b));
}

#[test]
fn batch_spawns_take_their_own_overrides() {
    let mut world = World::new();
    let orc = resonance_engine::prefab::Prefab::new("Orc").attr("hp", 10).attr("speed", 3);
    let hs = orc.spawn_batch_with(&mut world, 3, |i| if i == 1 { vec![("hp", 99)] } else { vec![] });
    world.build();
    assert_eq!(hs.len(), 3);
    assert_eq!(world.read(hs[0], "hp"), Some(10));
    assert_eq!(world.read(hs[1], "hp"), Some(99));
    assert_eq!(world.read(hs[2], "speed"), Some(3));
}

#[test]
fn field_map_binds_each_attribute_to_its_field() {
    let mut world = World::new();
    two_creatures(&mut world);
    let map = world.field_map(0);
    assert_eq!(map.field_index("energy").map(|f| f.0), Some(0));
    assert_eq!(map.field_index("x").map(|f| f.0), Some(1));
    assert_eq!(map.field_index("y").map(|f| f.0), None);
}

#[test]
fn despawning_twice_changes_nothing_more() {
    let mut world = World::new();
    let (a, b) = two_creatures(&mut world);
    world.despawn(a);
    let alive = world.alive_count();
    world.despawn(a);
    assert_eq!(world.alive_count(), alive);
    assert!(!world.is_alive(a));
    assert!(world.is_alive(b));
}

#[test]
fn attributes_can_be_required_after_a_filter() {
    let mut world = World::new();
    let (a, b) = two_creatures(&mut world);
    assert_eq!(world.query().filter(|_, _| true).with::<Energy>().execute(), vec![a, b]);
    assert_eq!(world.query().filter(|e, _| e != a).with::<Energy>().count(), 1);
    assert!(world.query().filter(|_, _| true).without::<Energy>().execute().is_empty());
}
