use bgpsimulator::announcement::Announcement;
use bgpsimulator::as_graph::{ASBuilder, ASGraph};
use bgpsimulator::engine::SimulationEngine;
use bgpsimulator::prefix::Prefix;
use bgpsimulator::shared::Relationships;

/// The four-AS chain used across the engine tests.
fn create_test_as_graph_simple() -> ASGraph {
    let as1_builder = ASBuilder::new(1).as_tier_1().with_customers(vec![2, 3]);

    let as2_builder = ASBuilder::new(2).with_providers(vec![1]).with_customers(vec![4]);

    let as3_builder = ASBuilder::new(3).with_providers(vec![1]);

    let as4_builder = ASBuilder::new(4).with_providers(vec![2]);

    let mut as_graph = ASGraph::build(vec![as1_builder, as2_builder, as3_builder, as4_builder]);
    as_graph.assign_as_propagation_rank();

    as_graph
}

#[test]
fn test_basic_propagation() {
    let as_graph = create_test_as_graph_simple();
    let mut engine = SimulationEngine::new(as_graph);

    let prefix = Prefix::v4(10, 0, 0, 0, 24);
    let ann = Announcement::new(prefix, 4, Relationships::Origin);

    engine.setup(vec![(4, ann)]);
    engine.run(5);

    assert!(engine.has_route(4, &prefix));
    assert_eq!(engine.rib_path(4, &prefix), Some(vec![4]));

    assert_eq!(engine.rib_path(2, &prefix), Some(vec![2, 4]));

    assert_eq!(engine.rib_path(1, &prefix), Some(vec![1, 2, 4]));

    assert_eq!(engine.rib_path(3, &prefix), Some(vec![3, 1, 2, 4]));
}

#[test]
fn test_loop_prevention() {
    let as_graph = create_test_as_graph_simple();
    let mut engine = SimulationEngine::new(as_graph);

    let prefix = Prefix::v4(10, 0, 0, 0, 24);
    let mut ann = Announcement::new(prefix, 1, Relationships::Origin);
    ann.as_path = vec![1, 3, 4];

    engine.setup(vec![(1, ann)]);
    engine.run(5);

    assert!(engine.has_route(1, &prefix));

    assert!(engine.has_route(2, &prefix));

    // AS 3 must not accept a path that already carries it.
    assert!(!engine.has_route(3, &prefix));
}

#[test]
fn test_gao_rexford_export_rules() {
    //      AS 1 (tier-1)
    //     /    \
    //   AS 2 -- AS 3   (peers)
    //     \    /
    //      AS 4
    let as1_builder = ASBuilder::new(1).as_tier_1().with_customers(vec![2, 3]);

    let as2_builder = ASBuilder::new(2)
        .with_providers(vec![1])
        .with_peers(vec![3])
        .with_customers(vec![4]);

    let as3_builder = ASBuilder::new(3)
        .with_providers(vec![1])
        .with_peers(vec![2])
        .with_customers(vec![4]);

    let as4_builder = ASBuilder::new(4).with_providers(vec![2, 3]);

    let mut as_graph = ASGraph::build(vec![as1_builder, as2_builder, as3_builder, as4_builder]);
    as_graph.assign_as_propagation_rank();

    let mut engine = SimulationEngine::new(as_graph);

    let prefix = Prefix::v4(10, 0, 0, 0, 24);
    let ann = Announcement::new(prefix, 4, Relationships::Origin);

    engine.setup(vec![(4, ann)]);
    engine.run(5);

    assert!(engine.has_route(1, &prefix));
    assert!(engine.has_route(2, &prefix));
    assert!(engine.has_route(3, &prefix));
    assert!(engine.has_route(4, &prefix));

    // A prefix originated at AS 2 reaches its provider, its peer and its
    // customer.
    let prefix2 = Prefix::v4(20, 0, 0, 0, 24);
    let ann2 = Announcement::new(prefix2, 2, Relationships::Origin);

    engine.setup(vec![(2, ann2)]);
    engine.run(5);

    assert!(engine.has_route(2, &prefix2));

    assert!(engine.has_route(1, &prefix2));

    assert!(engine.has_route(3, &prefix2));

    assert!(engine.has_route(4, &prefix2));
}

#[test]
fn test_peer_no_reexport_of_provider_route() {
    // A route AS 3 learned from its peer AS 2, which in turn had it from its
    // provider, must not appear beyond the peer edge: peers do not re-export
    // provider routes.
    let as1_builder = ASBuilder::new(1).as_tier_1().with_customers(vec![2]);
    let as2_builder = ASBuilder::new(2).with_providers(vec![1]).with_peers(vec![3]);
    let as3_builder = ASBuilder::new(3).as_tier_1().with_peers(vec![2]);
    let mut as_graph = ASGraph::build(vec![as1_builder, as2_builder, as3_builder]);
    as_graph.assign_as_propagation_rank();

    let mut engine = SimulationEngine::new(as_graph);
    let prefix = Prefix::v4(10, 0, 0, 0, 24);
    let ann = Announcement::new(prefix, 1, Relationships::Origin);
    engine.setup(vec![(1, ann)]);
    engine.run(5);

    // AS 2 has the route from its provider AS 1.
    assert!(engine.has_route(2, &prefix));
    // AS 3 must not receive it across the peer edge.
    assert!(!engine.has_route(3, &prefix));
}

#[test]
fn test_withdrawal() {
    let as_graph = create_test_as_graph_simple();
    let mut engine = SimulationEngine::new(as_graph);

    let prefix = Prefix::v4(10, 0, 0, 0, 24);
    let ann = Announcement::new(prefix, 4, Relationships::Origin);

    engine.setup(vec![(4, ann)]);
    engine.run(5);

    assert!(engine.has_route(1, &prefix));
    assert!(engine.has_route(2, &prefix));
    assert!(engine.has_route(3, &prefix));
    assert!(engine.has_route(4, &prefix));

    let mut withdrawal = Announcement::new(prefix, 4, Relationships::Origin);
    withdrawal.withdraw = true;

    engine.setup(vec![(4, withdrawal)]);
    engine.run(5);

    assert!(!engine.has_route(1, &prefix));
    assert!(!engine.has_route(2, &prefix));
    assert!(!engine.has_route(3, &prefix));
    assert!(!engine.has_route(4, &prefix));
}

#[test]
fn test_run_zero_rounds_changes_nothing() {
    // Running further zero rounds leaves every RIB as it was.
    let as_graph = create_test_as_graph_simple();
    let mut engine = SimulationEngine::new(as_graph);
    let prefix = Prefix::v4(10, 0, 0, 0, 24);
    let ann = Announcement::new(prefix, 4, Relationships::Origin);
    engine.setup(vec![(4, ann)]);
    engine.run(5);
    let before = engine.get_local_rib_snapshot();
    engine.run(0);
    let after = engine.get_local_rib_snapshot();
    assert_eq!(before.len(), after.len());
    for (b, a) in before.iter().zip(after.iter()) {
        assert_eq!(b.0, a.0);
        assert_eq!(b.1.len(), a.1.len());
        for (be, ae) in b.1.iter().zip(a.1.iter()) {
            assert_eq!(be.0, ae.0);
            assert_eq!(be.1, ae.1);
        }
    }
}

#[test]
fn test_withdrawal_idempotent() {
    // Seeding and propagating the same withdrawal twice ends in the same
    // RIB state as doing it once.
    let as_graph = create_test_as_graph_simple();
    let mut engine = SimulationEngine::new(as_graph);
    let prefix = Prefix::v4(10, 0, 0, 0, 24);
    let ann = Announcement::new(prefix, 4, Relationships::Origin);
    engine.setup(vec![(4, ann)]);
    engine.run(5);

    let mut w1 = Announcement::new(prefix, 4, Relationships::Origin);
    w1.withdraw = true;
    let mut w2 = Announcement::new(prefix, 4, Relationships::Origin);
    w2.withdraw = true;
    engine.setup(vec![(4, w1), (4, w2)]);
    engine.run(5);
    for asn in [1u32, 2, 3, 4] {
        assert!(!engine.has_route(asn, &prefix));
    }
}

#[test]
fn test_seed_twice_unchanged() {
    // Seeding the same announcement twice at the same origin leaves the
    // origin's local RIB as after one seeding.
    let as_graph = create_test_as_graph_simple();
    let mut engine = SimulationEngine::new(as_graph);
    let prefix = Prefix::v4(10, 0, 0, 0, 24);
    let a1 = Announcement::new(prefix, 4, Relationships::Origin);
    let a2 = Announcement::new(prefix, 4, Relationships::Origin);
    engine.setup(vec![(4, a1), (4, a2)]);
    assert_eq!(engine.rib_path(4, &prefix), Some(vec![4]));
}

#[test]
fn test_local_rib_paths_start_with_self() {
    // Every stored route starts with the owning AS and does not revisit it.
    let as_graph = create_test_as_graph_simple();
    let mut engine = SimulationEngine::new(as_graph);
    let prefix = Prefix::v4(10, 0, 0, 0, 24);
    let ann = Announcement::new(prefix, 4, Relationships::Origin);
    engine.setup(vec![(4, ann)]);
    engine.run(5);
    for (asn, ribs) in engine.get_local_rib_snapshot() {
        for (_prefix, path) in ribs {
            assert_eq!(path[0], asn);
            assert!(!path[1..].contains(&asn));
        }
    }
}
