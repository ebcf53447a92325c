use std::collections::BTreeSet;

use cqels_core::operator::swag_join::VariableOrderMethod;
use cqels_core::operator::swag_join_graph::{FactorizedViewPlan, JoinGraph};

fn star() -> JoinGraph {
    let mut g = JoinGraph::new();
    g.add_relation("R", &["x"]);
    g.add_relation("A", &["x", "a"]);
    g.add_relation("B", &["x", "b"]);
    g.add_relation("C", &["x", "c"]);
    g.add_edge("R", "A", -10, 10);
    g.add_edge("R", "B", -10, 10);
    g.add_edge("R", "C", -10, 10);
    g
}

fn triangle() -> JoinGraph {
    let mut g = JoinGraph::new();
    g.add_relation("R1", &["x", "y"]);
    g.add_relation("R2", &["y", "z"]);
    g.add_relation("R3", &["x", "z"]);
    g.add_edge("R1", "R2", -10, 10);
    g.add_edge("R2", "R3", -10, 10);
    g.add_edge("R1", "R3", -10, 10);
    g
}

#[test]
fn relation_names_sorted_lexicographically() {
    let g = star();
    assert_eq!(g.relation_names(), vec!["A", "B", "C", "R"]);
}

#[test]
fn degree_max_degree_and_neighbors() {
    let g = star();
    assert_eq!(g.degree("R"), 3);
    assert_eq!(g.degree("A"), 1);
    assert_eq!(g.max_degree(), 3);
    let mut neighbors = g.neighbors("R");
    neighbors.sort();
    assert_eq!(neighbors, vec!["A", "B", "C"]);
}

#[test]
fn incident_edges_filters_correctly() {
    let g = star();
    let inc_r = g.incident_edges("R");
    assert_eq!(inc_r.len(), 3);
    let inc_a = g.incident_edges("A");
    assert_eq!(inc_a.len(), 1);
    assert_eq!(inc_a[0].relation_a, "R");
    assert_eq!(inc_a[0].relation_b, "A");
}

#[test]
fn is_connected_star_yes_disjoint_no() {
    let g = star();
    assert!(g.is_connected());
    let mut h = JoinGraph::new();
    h.add_relation("L", &["x"]);
    h.add_relation("R", &["y"]);
    assert!(!h.is_connected());
}

#[test]
fn is_acyclic_star_yes_triangle_no_graph_level() {
    assert!(star().is_acyclic());
    assert!(!triangle().is_acyclic());
}

#[test]
fn edge_window_bounds_swap_per_query_side() {
    let mut g = JoinGraph::new();
    g.add_relation("A", &["x"]);
    g.add_relation("B", &["x"]);
    g.add_edge("A", "B", -100, 200);
    let e = g.edge("A", "B").expect("edge");
    assert_eq!(e.window_bounds(1000, "A"), Some((900, 1200)));
    assert_eq!(e.window_bounds(1000, "B"), Some((800, 1100)));
    assert!(e.window_bounds(1000, "C").is_none());
}

#[test]
fn hypergraph_collects_vertices_and_hyperedges() {
    let g = star();
    let h = g.build_hypergraph();
    assert_eq!(h.vertices.len(), 4, "vars are {{x, a, b, c}}");
    assert_eq!(h.hyperedges.len(), 4);
    let x_neighbors = h.primal_graph.get("x").expect("x present");
    assert!(x_neighbors.contains("a"));
    assert!(x_neighbors.contains("b"));
    assert!(x_neighbors.contains("c"));
}

#[test]
fn star_is_acyclic_gyo_triangle_is_cyclic_gyo() {
    assert!(star().is_acyclic_gyo());
    assert!(!triangle().is_acyclic_gyo());
}

#[test]
fn binary_join_is_acyclic_gyo() {
    let mut g = JoinGraph::new();
    g.add_relation("A", &["x", "y"]);
    g.add_relation("B", &["y", "z"]);
    g.add_edge("A", "B", -10, 10);
    assert!(g.is_acyclic_gyo());
}

#[test]
fn acyclic_query_uses_gyo_join_tree_method() {
    let g = star();
    let vo = g.build_variable_order();
    assert!(vo.is_acyclic());
    assert_eq!(vo.method(), VariableOrderMethod::GyoJoinTree);
    assert_eq!(vo.prefix_order().len(), 4);
    assert_eq!(vo.elimination_order().len(), 4);
    let mut rev = vo.prefix_order().to_vec();
    rev.reverse();
    assert_eq!(rev, vo.elimination_order());
}

#[test]
fn cyclic_query_falls_back_to_min_fill() {
    let g = triangle();
    let vo = g.build_variable_order();
    assert!(!vo.is_acyclic());
    assert_eq!(vo.method(), VariableOrderMethod::MinFill);
    assert_eq!(vo.prefix_order().len(), 3);
    assert!(vo.join_tree().is_empty());
}

#[test]
fn factorized_view_plan_lengths_match_variable_order() {
    let g = star();
    let vo = g.build_variable_order();
    let var_count = vo.prefix_order().len();
    let plan = FactorizedViewPlan::from_graph(&g, vo);
    assert_eq!(plan.prefix_layers().len(), var_count);
    assert_eq!(plan.suffix_layers().len(), var_count);
    let mut prev = 0;
    for layer in plan.prefix_layers() {
        assert!(layer.variables.len() > prev);
        prev = layer.variables.len();
    }
}

#[test]
fn factorized_view_plan_eventually_binds_every_relation() {
    let g = star();
    let vo = g.build_variable_order();
    let plan = FactorizedViewPlan::from_graph(&g, vo);
    let mut bound: BTreeSet<String> = BTreeSet::new();
    for layer in plan.prefix_layers() {
        for r in layer.relations.as_slice() {
            bound.insert(r.clone());
        }
    }
    assert_eq!(bound.len(), 4, "all 4 relations eventually bind");
}

#[test]
fn factorized_view_plan_relation_variables_match_graph() {
    let g = star();
    let vo = g.build_variable_order();
    let plan = FactorizedViewPlan::from_graph(&g, vo);
    let r_vars = plan.relation_variables().get("R").expect("R present");
    assert!(r_vars.contains("x"));
    assert_eq!(r_vars.len(), 1);
    let a_vars = plan.relation_variables().get("A").expect("A present");
    assert!(a_vars.contains("x"));
    assert!(a_vars.contains("a"));
}

#[test]
fn empty_graph_is_connected_and_acyclic() {
    let g = JoinGraph::new();
    assert!(g.is_connected());
    assert!(g.is_acyclic());
    assert!(g.is_acyclic_gyo());
    assert_eq!(g.max_degree(), 0);
}
