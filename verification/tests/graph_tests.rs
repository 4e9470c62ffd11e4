use resonance_engine::archetype::{ArchetypeId, EntityId};
use resonance_engine::entity::EntityHandle;
use resonance_engine::graph::{GraphEdge, GraphError, GraphQuery, MetaGraph, TraversalMode};

fn h(i: u32) -> EntityHandle {
    EntityHandle(EntityId { index: i, generation: 0 })
}

/// 1 and 2 are children of 0, 3 a child of 1.
fn tree() -> MetaGraph {
    let mut g = MetaGraph::new();
    for i in 0..4 {
        g.add_entity(h(i), ArchetypeId(0));
    }
    g.add_relation(h(1), GraphEdge::ChildOf, h(0)).unwrap();
    g.add_relation(h(2), GraphEdge::ChildOf, h(0)).unwrap();
    g.add_relation(h(3), GraphEdge::ChildOf, h(1)).unwrap();
    g
}

#[test]
fn query_children_follows_child_edges_only() {
    let mut g = tree();
    g.add_relation(h(3), GraphEdge::Has, h(2)).unwrap();
    assert_eq!(g.query_children(h(0)), vec![h(1), h(2)]);
    assert_eq!(g.query_children(h(2)), Vec::<EntityHandle>::new());
    assert_eq!(g.query_children(h(3)), Vec::<EntityHandle>::new());
    assert_eq!(g.query_children(h(9)), Vec::<EntityHandle>::new());
}

#[test]
fn add_relation_with_unknown_entity_fails() {
    let mut g = tree();
    match g.add_relation(h(0), GraphEdge::ChildOf, h(9)) {
        Err(GraphError::InvalidTraversal(msg)) => assert!(msg.contains("not in graph")),
        _ => panic!("expected an error"),
    }
}

#[test]
fn one_hop_query_gives_direct_children() {
    let g = tree();
    let mut r = GraphQuery::new(&g).start(h(1)).traverse(GraphEdge::ChildOf, TraversalMode::OneHop).execute().unwrap();
    r.sort_by_key(|e| e.0.index);
    assert_eq!(r, vec![h(3)]);
}

#[test]
fn breadth_first_query_gives_all_descendants_once() {
    let mut g = tree();
    g.add_relation(h(3), GraphEdge::ChildOf, h(2)).unwrap();
    let r = GraphQuery::new(&g).start(h(0)).traverse(GraphEdge::ChildOf, TraversalMode::Recursive).execute().unwrap();
    assert_eq!(r.len(), 3);
    assert!(r.contains(&h(1)) && r.contains(&h(2)) && r.contains(&h(3)));
    assert_eq!(r[2], h(3));
    assert!(!r.contains(&h(0)));
}

#[test]
fn depth_first_query_skips_the_start_even_on_a_cycle() {
    let mut g = tree();
    g.add_relation(h(0), GraphEdge::ChildOf, h(3)).unwrap();
    let r = GraphQuery::new(&g).start(h(0)).traverse(GraphEdge::ChildOf, TraversalMode::RecursiveDFS).execute().unwrap();
    assert_eq!(r.len(), 3);
    assert!(!r.contains(&h(0)));
}

#[test]
fn query_without_start_fails() {
    let g = tree();
    match GraphQuery::new(&g).execute() {
        Err(GraphError::InvalidTraversal(msg)) => assert_eq!(msg, "No start entity specified"),
        _ => panic!("expected an error"),
    }
}

fn systems() -> MetaGraph {
    let mut g = MetaGraph::new();
    g.add_system_node("move".to_string(), ArchetypeId(0), 0, vec![1], vec![2]);
    g.add_system_node("collide".to_string(), ArchetypeId(0), 1, vec![2], vec![2]);
    g.add_system_node("render".to_string(), ArchetypeId(1), 2, vec![2], vec![3]);
    g
}

#[test]
fn systems_writing_one_component_land_in_different_phases() {
    let mut g = systems();
    g.add_dependency("move", "collide").unwrap();
    g.add_dependency("collide", "render").unwrap();
    assert!(g.is_dirty());
    let plan = g.compile_execution_plan().unwrap();
    assert!(!g.is_dirty());
    assert_eq!(plan.phase_count(), 3);
    assert_eq!(plan.total_systems(), 3);
    assert_eq!(plan.max_parallelism(), 1);
    assert_eq!(plan.phases[0].systems[0].name, "render");
    assert_eq!(plan.phases[0].writes, vec![3]);
    assert_eq!(plan.phases[0].reads, vec![2]);
    assert_eq!(plan.phases[1].systems[0].name, "collide");
    assert_eq!(plan.phases[1].systems[0].resonator, 1);
    assert_eq!(plan.phases[2].systems[0].name, "move");
}

#[test]
fn a_system_runs_after_what_it_depends_on() {
    let mut g = MetaGraph::new();
    g.add_system_node("x".to_string(), ArchetypeId(0), 0, vec![], vec![1]);
    g.add_system_node("y".to_string(), ArchetypeId(0), 1, vec![], vec![2]);
    g.add_system_node("z".to_string(), ArchetypeId(0), 2, vec![], vec![3]);
    g.add_dependency("x", "y").unwrap();
    let plan = g.compile_execution_plan().unwrap();
    assert_eq!(plan.phase_count(), 2);
    let first: Vec<&str> = plan.phases[0].systems.iter().map(|s| s.name.as_str()).collect();
    assert!(first.contains(&"y") && first.contains(&"z") && !first.contains(&"x"));
    assert_eq!(plan.phases[1].systems[0].name, "x");
}

#[test]
fn a_clean_graph_gives_back_its_stored_plan() {
    let mut g = systems();
    let first = g.compile_execution_plan().unwrap();
    let second = g.compile_execution_plan().unwrap();
    assert_eq!(first.phase_count(), second.phase_count());
    assert_eq!(second.total_systems(), 3);
}

#[test]
fn an_empty_graph_compiles_to_an_empty_plan() {
    let mut g = MetaGraph::new();
    let plan = g.compile_execution_plan().unwrap();
    assert_eq!(plan.phase_count(), 0);
    assert_eq!(plan.max_parallelism(), 0);
}

#[test]
fn dependency_cycles_are_reported_with_names() {
    let mut g = systems();
    g.add_dependency("move", "collide").unwrap();
    g.add_dependency("collide", "move").unwrap();
    match g.compile_execution_plan() {
        Err(GraphError::CyclicDependency(names)) => {
            assert!(names.len() >= 2);
            assert_eq!(names.first(), names.last());
        }
        _ => panic!("expected a cycle"),
    }
}

#[test]
fn unknown_systems_are_named_in_the_error() {
    let mut g = systems();
    match g.add_dependency("move", "nobody") {
        Err(GraphError::SystemNotFound(name)) => assert_eq!(name, "nobody"),
        _ => panic!("expected an error"),
    }
}

#[test]
fn dot_text_lists_nodes_then_edges() {
    let mut g = MetaGraph::new();
    g.add_entity(h(0), ArchetypeId(0));
    g.add_system_node("sys".to_string(), ArchetypeId(0), 0, vec![], vec![]);
    g.add_relation(h(0), GraphEdge::Custom("likes"), h(0)).unwrap();
    let dot = g.to_dot();
    let expected = "digraph Simulation {\n  rankdir=LR;\n  node [shape=box];\n\n  E0 [label=\"Entity 0:0\", color=green];\n  S1 [label=\"sys\", shape=ellipse, color=blue];\n\n  E0 -> E0 [label=\"likes\"];\n}\n";
    assert_eq!(dot, expected);
}

#[test]
fn removing_an_entity_drops_its_node() {
    let mut g = tree();
    g.remove_entity(h(3));
    assert_eq!(g.node_count(), 3);
    assert_eq!(g.query_children(h(1)), Vec::<EntityHandle>::new());
    g.remove_entity(h(3));
    assert_eq!(g.node_count(), 3);
}

#[test]
fn the_entity_on_the_moved_node_keeps_working() {
    let mut g = MetaGraph::new();
    for i in 0..3 {
        g.add_entity(h(i), ArchetypeId(0));
    }
    g.remove_entity(h(0));
    assert!(g.add_relation(h(2), GraphEdge::ChildOf, h(1)).is_ok());
    assert_eq!(g.query_children(h(1)), vec![h(2)]);
    assert!(g.add_relation(h(0), GraphEdge::ChildOf, h(1)).is_err());
}

#[test]
fn dot_edges_join_the_declared_nodes() {
    let mut g = MetaGraph::new();
    g.add_entity(h(0), ArchetypeId(0));
    g.add_entity(h(1), ArchetypeId(0));
    g.add_relation(h(1), GraphEdge::ChildOf, h(0)).unwrap();
    assert!(g.to_dot().contains("  E1 -> E0 [style=\"bold\"];\n"));
}

#[test]
fn every_system_lands_in_one_phase_without_shared_writes() {
    let mut g = MetaGraph::new();
    g.add_system_node("a".to_string(), ArchetypeId(0), 0, vec![], vec![1]);
    g.add_system_node("b".to_string(), ArchetypeId(0), 1, vec![], vec![1, 2]);
    g.add_system_node("c".to_string(), ArchetypeId(0), 2, vec![], vec![3]);
    g.add_system_node("d".to_string(), ArchetypeId(0), 3, vec![], vec![2]);
    let plan = g.compile_execution_plan().unwrap();
    assert_eq!(plan.total_systems(), 4);
    for phase in &plan.phases {
        let mut seen = std::collections::HashSet::new();
        for w in &phase.writes {
            assert!(seen.insert(*w));
        }
    }
}

#[test]
fn compiling_from_an_order_skips_nodes_that_are_not_systems() {
    let mut g = MetaGraph::new();
    g.add_entity(h(0), ArchetypeId(0));
    g.add_system_node("s".to_string(), ArchetypeId(0), 0, vec![], vec![1]);
    g.add_system_node("t".to_string(), ArchetypeId(0), 1, vec![], vec![1]);
    let plan = g.compile_from_order(&vec![2, 0, 1, 7]).unwrap();
    assert_eq!(plan.phase_count(), 2);
    assert_eq!(plan.phases[0].systems[0].name, "t");
    assert_eq!(plan.phases[1].systems[0].name, "s");
    assert!(!g.is_dirty());
}

#[test]
fn errors_describe_themselves() {
    let cycle = GraphError::CyclicDependency(vec!["a".to_string(), "b".to_string(), "a".to_string()]);
    assert_eq!(cycle.describe(), "Dependency cycle detected: a → b → a");
    assert_eq!(GraphError::SystemNotFound("x".to_string()).describe(), "System 'x' not found");
    let w = GraphError::ConflictingWrites { system_a: "a".to_string(), system_b: "b".to_string(), component: "c".to_string() };
    assert_eq!(w.describe(), "Systems 'a' and 'b' both write component 'c' without dependency");
    assert_eq!(GraphError::InvalidTraversal("m".to_string()).describe(), "Invalid traversal: m");
    assert_eq!(GraphError::CyclicDependency(vec![]).describe(), "Dependency cycle detected: ");
}

#[test]
fn a_cycle_among_entities_is_no_dependency_cycle() {
    let mut g = systems();
    g.add_entity(h(0), ArchetypeId(0));
    g.add_entity(h(1), ArchetypeId(0));
    g.add_relation(h(0), GraphEdge::ChildOf, h(1)).unwrap();
    g.add_relation(h(1), GraphEdge::ChildOf, h(0)).unwrap();
    let plan = g.compile_execution_plan().unwrap();
    assert_eq!(plan.total_systems(), 3);
}

#[test]
fn graph_query_filters_the_walk() {
    let g = tree();
    let r = GraphQuery::new(&g)
        .start(h(0))
        .traverse(GraphEdge::ChildOf, TraversalMode::Recursive)
        .filter(|e| e.0.index != 2)
        .execute()
        .unwrap();
    assert_eq!(r.len(), 2);
    assert!(r.contains(&h(1)) && r.contains(&h(3)) && !r.contains(&h(2)));
    assert!(GraphQuery::new(&g).filter(|_| true).execute().is_err());
}

#[test]
fn graph_query_can_start_after_a_filter() {
    let g = tree();
    let r = GraphQuery::new(&g)
        .filter(|e| e.0.index != 2)
        .start(h(0))
        .traverse(GraphEdge::ChildOf, TraversalMode::Recursive)
        .execute()
        .unwrap();
    assert_eq!(r.len(), 2);
    assert!(r.contains(&h(1)) && r.contains(&h(3)));
}
