use gbpplanner::factor::{FactorKind, RemoteVariable};
use gbpplanner::graph::{Edge, FactorGraph, FactorIndex, GraphError, NodeCount, VariableIndex};

fn graph_with_variables(id: usize, n: usize) -> FactorGraph {
    let mut g = FactorGraph::new(id);
    for _ in 0..n {
        g.add_variable();
    }
    g
}

fn interrobot_factors(g: &FactorGraph) -> Vec<(usize, usize, usize)> {
    let mut out = Vec::new();
    let mut f = 0usize;
    loop {
        let count = g.node_count();
        if f > count.factors + 64 {
            break;
        }
        if let Some(FactorKind::InterRobot { remote }) = g.factor_kind(FactorIndex(f)) {
            out.push((f, remote.robot, remote.variable_index));
        }
        f += 1;
    }
    out
}

#[test]
fn new_graph_is_empty() {
    let g = FactorGraph::new(7);
    assert_eq!(g.id(), 7);
    assert_eq!(g.node_count(), NodeCount { variables: 0, factors: 0 });
    assert_eq!(g.messages_sent(), 0);
    assert!(g.variables().is_empty());
    assert_eq!(g.nth_variable(0), None);
    assert!(g.edges().is_empty());
}

#[test]
fn add_variables_and_factors() {
    let mut g = FactorGraph::new(0);
    let v0 = g.add_variable();
    let v1 = g.add_variable();
    assert_eq!((v0, v1), (VariableIndex(0), VariableIndex(1)));
    let f0 = g.add_factor(FactorKind::Pose, v0).unwrap();
    let f1 = g.add_factor(FactorKind::Dynamic, v1).unwrap();
    assert_eq!((f0, f1), (FactorIndex(0), FactorIndex(1)));
    assert_eq!(g.node_count(), NodeCount { variables: 2, factors: 2 });
    assert_eq!(g.edges(), vec![Edge { factor: 0, variable: 0 }, Edge { factor: 1, variable: 1 }]);
    assert!(g.has_edge(f0, v0));
    assert!(!g.has_edge(f0, v1));
    assert_eq!(g.variable_neighbours(v0), Some(vec![f0]));
    assert_eq!(g.factor_kind(f1), Some(FactorKind::Dynamic));
    assert_eq!(g.factor_kind(FactorIndex(9)), None);
}

#[test]
fn add_factor_on_unknown_variable_fails() {
    let mut g = graph_with_variables(0, 1);
    assert_eq!(g.add_factor(FactorKind::Pose, VariableIndex(3)), Err(GraphError::UnknownVariable));
    assert_eq!(g.node_count(), NodeCount { variables: 1, factors: 0 });
}

#[test]
fn removing_variable_removes_its_edges() {
    let mut g = graph_with_variables(0, 3);
    let a = g.add_factor(FactorKind::Pose, VariableIndex(1)).unwrap();
    let b = g.add_factor(FactorKind::Dynamic, VariableIndex(1)).unwrap();
    let c = g.add_factor(FactorKind::Dynamic, VariableIndex(2)).unwrap();
    assert_eq!(g.variable_neighbours(VariableIndex(1)), Some(vec![a, b]));
    assert_eq!(g.remove_variable(VariableIndex(1)), Ok(()));
    assert!(!g.has_edge(a, VariableIndex(1)));
    assert!(!g.has_edge(b, VariableIndex(1)));
    assert!(g.has_edge(c, VariableIndex(2)));
    assert_eq!(g.variable_neighbours(VariableIndex(1)), None);
    assert_eq!(g.edges(), vec![Edge { factor: 2, variable: 2 }]);
    assert_eq!(g.node_count(), NodeCount { variables: 2, factors: 3 });
    assert_eq!(g.variables(), vec![VariableIndex(0), VariableIndex(2)]);
    assert_eq!(g.nth_variable(1), Some(VariableIndex(2)));
    assert_eq!(g.nth_variable(2), None);
    assert_eq!(g.remove_variable(VariableIndex(1)), Err(GraphError::UnknownVariable));
    assert_eq!(g.add_factor(FactorKind::Pose, VariableIndex(1)), Err(GraphError::UnknownVariable));
}

#[test]
fn removing_factor_removes_its_edges() {
    let mut g = graph_with_variables(0, 2);
    let a = g.add_factor(FactorKind::Pose, VariableIndex(0)).unwrap();
    let b = g.add_factor(FactorKind::Pose, VariableIndex(1)).unwrap();
    assert_eq!(g.remove_factor(a), Ok(()));
    assert_eq!(g.remove_factor(a), Err(GraphError::UnknownFactor));
    assert_eq!(g.remove_factor(FactorIndex(17)), Err(GraphError::UnknownFactor));
    assert_eq!(g.edges(), vec![Edge { factor: b.0, variable: 1 }]);
    assert_eq!(g.factor_kind(a), None);
    assert_eq!(g.node_count(), NodeCount { variables: 2, factors: 1 });
}

#[test]
fn messages_sent_counter_saturates() {
    let mut g = FactorGraph::new(0);
    g.record_messages_sent(5);
    g.record_messages_sent(7);
    assert_eq!(g.messages_sent(), 12);
    g.record_messages_sent(usize::MAX);
    assert_eq!(g.messages_sent(), usize::MAX);
}

#[test]
fn create_and_delete_interrobot_factors() {
    let mut g = graph_with_variables(0, 4);
    g.create_interrobot_factors(9);
    assert_eq!(interrobot_factors(&g), vec![(0, 9, 1), (1, 9, 2), (2, 9, 3)]);
    assert!(g.has_edge(FactorIndex(0), VariableIndex(1)));
    assert!(g.has_edge(FactorIndex(2), VariableIndex(3)));
    assert_eq!(g.variable_neighbours(VariableIndex(0)), Some(vec![]));
    g.delete_interrobot_factors(9);
    assert!(interrobot_factors(&g).is_empty());
    assert!(g.edges().is_empty());
    assert_eq!(g.node_count(), NodeCount { variables: 4, factors: 0 });
}

#[test]
fn maintenance_follows_communication_range() {
    let mut g = graph_with_variables(0, 3);
    g.add_factor(FactorKind::Pose, VariableIndex(0)).unwrap();
    g.set_robots_within_range(&vec![4, 2, 4]);
    g.update_interrobot_factors();
    let created = interrobot_factors(&g);
    assert_eq!(created.len(), 4);
    for robot in [4usize, 2] {
        for v in [1usize, 2] {
            let (f, _, _) = *created.iter().find(|(_, r, w)| *r == robot && *w == v).unwrap();
            assert!(g.has_edge(FactorIndex(f), VariableIndex(v)));
        }
    }
    g.set_robots_within_range(&vec![2]);
    g.update_interrobot_factors();
    let left = interrobot_factors(&g);
    assert_eq!(left.len(), 2);
    assert!(left.iter().all(|(_, r, _)| *r == 2));
    assert_eq!(g.factor_kind(FactorIndex(0)), Some(FactorKind::Pose));
    g.set_robots_within_range(&vec![]);
    g.update_interrobot_factors();
    assert!(interrobot_factors(&g).is_empty());
    assert_eq!(g.edges(), vec![Edge { factor: 0, variable: 0 }]);
}

#[test]
fn maintenance_twice_changes_nothing() {
    let mut g = graph_with_variables(0, 4);
    g.set_robots_within_range(&vec![1, 3]);
    g.update_interrobot_factors();
    let factors = interrobot_factors(&g);
    let edges = g.edges();
    let count = g.node_count();
    g.update_interrobot_factors();
    assert_eq!(interrobot_factors(&g), factors);
    assert_eq!(g.edges(), edges);
    assert_eq!(g.node_count(), count);
    assert_eq!(count, NodeCount { variables: 4, factors: 6 });
}

#[test]
fn interrobot_factor_names_remote_variable() {
    let mut g = graph_with_variables(0, 2);
    g.set_robots_within_range(&vec![5]);
    g.update_interrobot_factors();
    assert_eq!(
        g.factor_kind(FactorIndex(0)),
        Some(FactorKind::InterRobot { remote: RemoteVariable { robot: 5, variable_index: 1 } })
    );
}

#[test]
fn remove_edge_and_lookup() {
    let mut g = graph_with_variables(0, 2);
    let f = g.add_factor(FactorKind::Pose, VariableIndex(1)).unwrap();
    assert_eq!(g.remove_edge(f, VariableIndex(0)), Err(gbpplanner::message::RemoveConnectionToError));
    assert_eq!(g.remove_edge(f, VariableIndex(1)), Ok(()));
    assert!(!g.has_edge(f, VariableIndex(1)));
    assert_eq!(g.remove_edge(f, VariableIndex(1)), Err(gbpplanner::message::RemoveConnectionToError));
    assert_eq!(g.factor_kind(f), Some(FactorKind::Pose));
    assert_eq!(g.variable_neighbours(VariableIndex(1)), Some(vec![]));
}

#[test]
fn factors_lists_live_factors() {
    let mut g = graph_with_variables(0, 2);
    let a = g.add_factor(FactorKind::Pose, VariableIndex(0)).unwrap();
    let b = g.add_factor(FactorKind::Obstacle, VariableIndex(1)).unwrap();
    let c = g.add_factor(FactorKind::Tracking, VariableIndex(1)).unwrap();
    g.remove_factor(b).unwrap();
    assert_eq!(g.factors(), vec![(a, FactorKind::Pose), (c, FactorKind::Tracking)]);
}
