use connectome_model::sim::{Activation, EdgeWeight, NodeWeight, StepResult};

#[test]
fn a_node_is_active_at_its_last_timestep_only() {
    let mut node = NodeWeight { last_active: None };
    assert!(!node.is_active(0));
    node.set_active(4);
    assert!(node.is_active(4));
    assert!(!node.is_active(5));
    assert_eq!(node.last_active, Some(4));
}

#[test]
fn a_node_rests_for_its_refractory_period() {
    let node = NodeWeight { last_active: Some(10) };
    assert!(node.is_refractory(10, 3));
    assert!(node.is_refractory(12, 3));
    assert!(!node.is_refractory(13, 3));
    assert!(!node.is_refractory(10, 0));
    assert!(!NodeWeight { last_active: None }.is_refractory(10, 3));
}

#[test]
fn the_earlier_activation_goes_first() {
    let early = Activation { at: 3, queued_at: 1 };
    let late = Activation { at: 5, queued_at: 0 };
    assert!(early.goes_before(&late));
    assert!(!late.goes_before(&early));
    assert!(!early.goes_before(&early));
    assert_eq!(early, Activation { at: 3, queued_at: 1 });
    assert_ne!(early, late);
}

#[test]
fn a_default_edge_is_bare() {
    let edge = EdgeWeight::default();
    assert_eq!(edge.myelination, 0);
    assert!(edge.activation_queue.is_empty());
    assert_eq!(edge.next_activation(), None);
}

#[test]
fn schedule_delays_by_the_missing_myelination() {
    let mut edge = EdgeWeight { myelination: 2, activation_queue: Vec::new() };
    edge.schedule(7, 5);
    assert_eq!(edge.activation_queue, vec![Activation { at: 11, queued_at: 7 }]);
    let mut full = EdgeWeight { myelination: 5, activation_queue: Vec::new() };
    full.schedule(7, 5);
    assert_eq!(full.activation_queue, vec![Activation { at: 8, queued_at: 7 }]);
}

#[test]
fn next_activation_is_the_earliest() {
    let edge = EdgeWeight {
        myelination: 0,
        activation_queue: vec![
            Activation { at: 9, queued_at: 1 },
            Activation { at: 4, queued_at: 2 },
            Activation { at: 6, queued_at: 3 },
        ],
    };
    assert_eq!(edge.next_activation(), Some(Activation { at: 4, queued_at: 2 }));
}

#[test]
fn take_due_serves_what_has_arrived() {
    let mut edge = EdgeWeight {
        myelination: 1,
        activation_queue: vec![
            Activation { at: 9, queued_at: 1 },
            Activation { at: 4, queued_at: 2 },
            Activation { at: 6, queued_at: 3 },
            Activation { at: 7, queued_at: 4 },
        ],
    };
    assert!(!edge.take_due(3));
    assert_eq!(edge.activation_queue.len(), 4);
    assert!(edge.take_due(6));
    assert_eq!(
        edge.activation_queue,
        vec![Activation { at: 9, queued_at: 1 }, Activation { at: 7, queued_at: 4 }]
    );
    assert!(!edge.take_due(6));
    assert!(edge.take_due(100));
    assert!(edge.activation_queue.is_empty());
    assert_eq!(edge.myelination, 1);
}

#[test]
fn decay_and_myelinate() {
    let mut edge = EdgeWeight { myelination: 1, activation_queue: Vec::new() };
    assert!(!edge.decay());
    assert_eq!(edge.myelination, 0);
    assert!(edge.decay());
    assert_eq!(edge.myelination, 0);
    assert!(edge.myelinate(2));
    assert!(edge.myelinate(2));
    assert!(!edge.myelinate(2));
    assert_eq!(edge.myelination, 2);
}

#[test]
fn a_step_result_lists_edges() {
    let result = StepResult { removed_edges: vec![(1, 2)], added_edges: vec![(3, 4), (5, 6)] };
    assert_eq!(result.removed_edges, vec![(1, 2)]);
    assert_eq!(result.added_edges.len(), 2);
}
