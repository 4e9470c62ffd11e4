use resonance_engine::scheduler::{batch_mode, group_side_by_side, BatchMode};
use resonance_engine::archetype::{EntityAllocator, EntityId};
use resonance_engine::context::{CommandBuffer, WriteRequest};
use resonance_engine::accessor::AttrOffset;
use resonance_engine::events::{DespawnEvent, EventChannel};
use resonance_engine::interning::StringInterner;
use resonance_engine::profiler::{render_report, truncate, Profiler, ReportRow};
use resonance_engine::scheduler::{chunk_size, collect_outcomes, EntityOutcome, TickResult};
use resonance_engine::serialization::EntitySnapshot;
use resonance_engine::spatial::{cell_index, group_by_cell};
use resonance_engine::relations::{Relation, RelationGraph};

struct Likes;
impl Relation for Likes {
    const NAME: &'static str = "Likes";
}

fn id(i: u32) -> EntityId {
    EntityId { index: i, generation: 0 }
}

#[test]
fn events_drain_oldest_first() {
    let mut ch: EventChannel<DespawnEvent> = EventChannel::new();
    assert!(ch.is_empty());
    ch.emit(DespawnEvent { entity_id: id(1) });
    ch.emit(DespawnEvent { entity_id: id(2) });
    assert_eq!(ch.len(), 2);
    let out = ch.drain();
    assert_eq!(out.len(), 2);
    assert_eq!(out[0].entity_id, id(1));
    assert_eq!(out[1].entity_id, id(2));
    assert!(ch.is_empty());
}

#[test]
fn interner_gives_one_id_per_string() {
    let mut s = StringInterner::new();
    let a = s.intern("energy");
    let b = s.intern("x");
    assert_eq!(s.intern("energy"), a);
    assert_ne!(a, b);
    assert_eq!(s.find("x"), Some(b));
    assert_eq!(s.find("y"), None);
    assert_eq!(s.resolve(a), "energy");
    assert_eq!(s.len(), 2);
}

#[test]
fn allocator_reuses_slots_with_a_new_generation() {
    let mut alloc = EntityAllocator::new();
    let a = alloc.allocate();
    let b = alloc.allocate();
    assert_eq!((a.index, b.index), (0, 1));
    alloc.deallocate(a);
    assert!(!alloc.is_alive(a));
    let c = alloc.allocate();
    assert_eq!(c.index, 0);
    assert_eq!(c.generation, 1);
    assert!(alloc.is_alive(c));
    assert!(alloc.is_alive(b));
}

#[test]
fn profiler_keeps_count_total_min_max() {
    let mut p = Profiler::new();
    p.record("tick".to_string(), 10);
    p.record("tick".to_string(), 30);
    let s = p.get("tick").unwrap();
    assert_eq!(s.count, 2);
    assert_eq!(s.total, 40);
    assert_eq!(s.min, 10);
    assert_eq!(s.max, 30);
    assert_eq!(s.avg(), 20);
    assert!(p.get("other").is_none());
    p.reset();
    assert_eq!(p.scope_count(), 0);
}

#[test]
fn disabled_profiler_records_nothing() {
    let mut p = Profiler::new().enabled(false);
    p.begin("tick");
    p.end();
    assert!(p.get("tick").is_none());
    let mut q = Profiler::new();
    q.begin("tick");
    q.end();
    assert_eq!(q.get("tick").unwrap().count, 1);
}

#[test]
fn report_order_puts_the_largest_total_first() {
    let mut p = Profiler::new();
    p.record("a".to_string(), 5);
    p.record("b".to_string(), 50);
    p.record("c".to_string(), 5);
    let order = p.report_order();
    assert_eq!(p.scope_at(order[0]).0, "b");
    assert_eq!(p.scope_at(order[1]).0, "a");
    assert_eq!(p.scope_at(order[2]).0, "c");
}

#[test]
fn truncate_shortens_long_names_with_dots() {
    assert_eq!(truncate("short", 10), "short");
    assert_eq!(truncate("a_very_long_scope_name", 10), "a_very_...");
}

#[test]
fn outcomes_add_up_in_batch_order() {
    let mut c1 = CommandBuffer::new();
    c1.write_requests.push(WriteRequest { target_offset: AttrOffset::new(3, 0, 1), value: 9 });
    let mut c2 = CommandBuffer::new();
    c2.despawn_requests.push(id(7));
    let outcomes = vec![
        EntityOutcome { entity: id(1), dirty: true, despawn: false, commands: c1 },
        EntityOutcome { entity: id(2), dirty: false, despawn: true, commands: CommandBuffer::new() },
        EntityOutcome { entity: id(3), dirty: true, despawn: true, commands: c2 },
    ];
    let r = collect_outcomes(outcomes, 2);
    assert_eq!(r.calls, 6);
    assert_eq!(r.processed, 3);
    assert_eq!(r.dirty, 2);
    assert_eq!(r.despawn_list, vec![id(2), id(3)]);
    assert_eq!(r.commands.write_requests.len(), 1);
    assert_eq!(r.commands.write_requests[0].value, 9);
    assert_eq!(r.commands.despawn_requests, vec![id(7)]);
    let mut t = TickResult::default();
    t.absorb(&r);
    t.absorb(&r);
    assert_eq!(t.total_calls, 12);
    assert_eq!(t.entities_processed, 6);
    assert_eq!(t.dirty_count, 4);
}

#[test]
fn chunks_are_an_even_share_but_not_below_the_minimum() {
    assert_eq!(chunk_size(64, 1000, 4), 250);
    assert_eq!(chunk_size(64, 100, 4), 64);
}

#[test]
fn command_buffers_merge_kind_by_kind() {
    let mut a = CommandBuffer::new();
    a.despawn_requests.push(id(1));
    let mut b = CommandBuffer::new();
    b.despawn_requests.push(id(2));
    a.merge(b);
    assert_eq!(a.despawn_requests, vec![id(1), id(2)]);
    assert!(!a.is_empty());
}

#[test]
fn snapshot_attributes_are_replaced_by_name() {
    let mut e = EntitySnapshot::new(0, 0, "Creature".to_string());
    e.add_attribute("energy".to_string(), 1);
    e.add_attribute("x".to_string(), 2);
    e.add_attribute("energy".to_string(), 3);
    assert_eq!(e.attributes.len(), 2);
    assert_eq!(e.get_attribute("energy"), Some(3));
    assert_eq!(e.get_attribute("y"), None);
}

#[test]
fn cells_are_numbered_row_by_row() {
    assert_eq!(cell_index(4, 3, 1, 2), 9);
    assert_eq!(cell_index(4, 3, 0, 0), 0);
    assert_eq!(cell_index(4, 3, 4, 0), usize::MAX);
    assert_eq!(cell_index(4, 3, -1, 1), usize::MAX);
}

#[test]
fn grouping_by_cell_keeps_arrival_order_within_a_cell() {
    let cells = vec![2, 0, 2, 1, 9, 0];
    let (order, ranges) = group_by_cell(&cells, 3);
    assert_eq!(order, vec![1, 5, 3, 0, 2]);
    assert_eq!(ranges, vec![(0, 2), (2, 3), (3, 5)]);
    let (empty, none) = group_by_cell(&vec![], 2);
    assert!(empty.is_empty());
    assert_eq!(none, vec![(0, 0), (0, 0)]);
}

#[test]
fn relation_targets_and_sources_agree() {
    let mut g = RelationGraph::new();
    g.add::<Likes>(id(1), id(2));
    g.add::<Likes>(id(1), id(3));
    g.add::<Likes>(id(4), id(2));
    assert_eq!(g.get_all::<Likes>(id(1)), vec![id(2), id(3)]);
    assert_eq!(g.get_reverse::<Likes>(id(2)), vec![id(1), id(4)]);
    g.remove_entity(id(2));
    assert_eq!(g.get_all::<Likes>(id(1)), vec![id(3)]);
    assert_eq!(g.get_all::<Likes>(id(4)), Vec::<EntityId>::new());
    assert_eq!(g.get_reverse::<Likes>(id(3)), vec![id(1)]);
    g.remove_all::<Likes>(id(1));
    assert_eq!(g.get_reverse::<Likes>(id(3)), Vec::<EntityId>::new());
    assert_eq!(g.count::<Likes>(id(1)), 0);
}

#[test]
fn batches_run_by_size_and_groups_side_by_side_only_with_phases() {
    assert_eq!(batch_mode(0, 10, 5), BatchMode::Skip);
    assert_eq!(batch_mode(2, 0, 5), BatchMode::Skip);
    assert_eq!(batch_mode(2, 4, 5), BatchMode::Sequential);
    assert_eq!(batch_mode(2, 5, 5), BatchMode::Parallel);
    assert!(!group_side_by_side(false, 3));
    assert!(!group_side_by_side(true, 1));
    assert!(group_side_by_side(true, 2));
}

fn row(name: &str, calls: u64, avg: &str, min: &str, max: &str) -> ReportRow {
    ReportRow { name: name.to_string(), calls, avg: avg.to_string(), min: min.to_string(), max: max.to_string() }
}

#[test]
fn report_without_scopes_says_so() {
    let expected = ["╔═══════════════════════════════════════════════════════════════╗", "║                    PROFILER REPORT                            ║", "╚═══════════════════════════════════════════════════════════════╝", "  No data collected."].join("\n");
    assert_eq!(render_report(&Vec::new()), expected);
}

#[test]
fn report_lays_rows_out_in_fixed_columns() {
    let rows = vec![
        row("physics", 12, "1.50ms", "900.0µs", "2.10ms"),
        row(&truncate("a_rather_long_scope_name_here", 25), 3, "40ns", "12ns", "97ns"),
    ];
    let expected = ["╔═══════════════════════════════════════════════════════════════╗", "║                    PROFILER REPORT                            ║", "╚═══════════════════════════════════════════════════════════════╝", "  Scope                          Calls          Avg          Min          Max", "  ─────────────────────────────────────────────────────────────────────────", "  physics                           12       1.50ms      900.0µs       2.10ms", "  a_rather_long_scope_na...          3         40ns         12ns         97ns"].join("\n");
    assert_eq!(render_report(&rows), expected);
}

#[test]
fn repeated_relation_is_counted_alike_at_both_ends() {
    let mut g = RelationGraph::new();
    g.add::<Likes>(id(1), id(2));
    g.add::<Likes>(id(1), id(2));
    g.add::<Likes>(id(3), id(2));
    assert_eq!(g.get_all::<Likes>(id(1)), vec![id(2), id(2)]);
    assert_eq!(g.get_reverse::<Likes>(id(2)), vec![id(1), id(1), id(3)]);
    g.remove::<Likes>(id(1), id(2));
    assert_eq!(g.get_all::<Likes>(id(1)), Vec::<EntityId>::new());
    assert_eq!(g.get_reverse::<Likes>(id(2)), vec![id(3)]);
}
