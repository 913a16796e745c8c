use bgpsimulator::as_graph::{ASBuilder, ASGraph};
use bgpsimulator::shared::ASNGroups;

#[test]
fn test_as_graph_creation() {
    let as1_builder = ASBuilder::new(1)
        .with_customers(vec![2, 3])
        .with_providers(vec![4]);

    let as2_builder = ASBuilder::new(2).with_providers(vec![1]);

    let as3_builder = ASBuilder::new(3).with_providers(vec![1]);

    let as4_builder = ASBuilder::new(4).with_customers(vec![1]);

    let as_graph = ASGraph::build(vec![as1_builder, as2_builder, as3_builder, as4_builder]);

    assert_eq!(as_graph.len(), 4);

    let as1 = as_graph.get(&1).unwrap();
    assert_eq!(as1.asn, 1);
    assert_eq!(as1.customers.len(), 2);
    assert_eq!(as1.providers.len(), 1);

    // Check relationships are bidirectional.
    let as2 = as_graph.get(&2).unwrap();
    assert_eq!(as2.providers.len(), 1);
    assert_eq!(as2.providers[0], 1);

    let as4 = as_graph.get(&4).unwrap();
    assert_eq!(as4.customers.len(), 1);
    assert_eq!(as4.customers[0], 1);
}

#[test]
fn test_as_graph_neighbors() {
    let as1_builder = ASBuilder::new(1).with_customers(vec![2]);

    let as2_builder = ASBuilder::new(2).with_providers(vec![1]).with_customers(vec![3]);

    let as3_builder = ASBuilder::new(3).with_providers(vec![2]);

    let as_graph = ASGraph::build(vec![as1_builder, as2_builder, as3_builder]);

    let as2 = as_graph.get(&2).unwrap();
    let neighbor_asns = as2.neighbor_asns();
    assert_eq!(neighbor_asns.len(), 2);
    assert!(neighbor_asns.contains(&1));
    assert!(neighbor_asns.contains(&3));
}

#[test]
fn test_as_graph_peering() {
    let as1_builder = ASBuilder::new(100).with_peers(vec![200]);

    let as2_builder = ASBuilder::new(200).with_peers(vec![100]);

    let as_graph = ASGraph::build(vec![as1_builder, as2_builder]);

    let as1 = as_graph.get(&100).unwrap();
    let as2 = as_graph.get(&200).unwrap();

    assert_eq!(as1.peers.len(), 1);
    assert_eq!(as1.peers[0], 200);
    assert_eq!(as2.peers.len(), 1);
    assert_eq!(as2.peers[0], 100);
}

#[test]
fn test_as_graph_tier1() {
    let tier1_builder = ASBuilder::new(1000).as_tier_1().with_customers(vec![2000, 3000]);

    let as2_builder = ASBuilder::new(2000).with_providers(vec![1000]);

    let as3_builder = ASBuilder::new(3000).with_providers(vec![1000]);

    let as_graph = ASGraph::build(vec![tier1_builder, as2_builder, as3_builder]);

    let tier1 = as_graph.get(&1000).unwrap();
    assert!(tier1.tier_1);
    assert!(tier1.providers.is_empty());
    assert_eq!(tier1.customers.len(), 2);
}

#[test]
fn test_as_graph_propagation_ranks() {
    let as1_builder = ASBuilder::new(1).as_tier_1().with_customers(vec![2, 4]);

    let as2_builder = ASBuilder::new(2).with_providers(vec![1]).with_customers(vec![3]);

    let as3_builder = ASBuilder::new(3).with_providers(vec![2]);

    let as4_builder = ASBuilder::new(4).with_providers(vec![1]);

    let mut as_graph = ASGraph::build(vec![as1_builder, as2_builder, as3_builder, as4_builder]);
    as_graph.assign_as_propagation_rank();

    let as1 = as_graph.get(&1).unwrap();
    let as2 = as_graph.get(&2).unwrap();
    let as3 = as_graph.get(&3).unwrap();
    let as4 = as_graph.get(&4).unwrap();

    assert_eq!(as1.propagation_rank, Some(0));
    assert_eq!(as2.propagation_rank, Some(1));
    assert_eq!(as4.propagation_rank, Some(1));
    assert_eq!(as3.propagation_rank, Some(2));
}

#[test]
fn test_rank_strictly_above_providers() {
    // Every ranked AS sits strictly above all of its providers.
    let builders = vec![
        ASBuilder::new(10).as_tier_1().with_customers(vec![20, 30]),
        ASBuilder::new(20).with_providers(vec![10]).with_customers(vec![40]),
        ASBuilder::new(30).with_providers(vec![10]).with_customers(vec![40]),
        ASBuilder::new(40).with_providers(vec![20, 30]),
    ];
    let mut g = ASGraph::build(builders);
    g.assign_as_propagation_rank();
    for (asn, providers) in [(20u32, vec![10u32]), (30, vec![10]), (40, vec![20, 30])] {
        let rank = g.get(&asn).unwrap().propagation_rank.unwrap();
        for p in providers {
            let prank = g.get(&p).unwrap().propagation_rank.unwrap();
            assert!(prank < rank);
        }
    }
}

#[test]
fn test_cycle_detection() {
    // A provider cycle is reported; the same graph without the closing edge
    // passes.
    let cyclic = vec![
        ASBuilder::new(1).with_providers(vec![2]),
        ASBuilder::new(2).with_providers(vec![3]),
        ASBuilder::new(3).with_providers(vec![1]),
    ];
    let g = ASGraph::build(cyclic);
    assert!(g.check_for_cycles().is_err());

    let acyclic = vec![
        ASBuilder::new(1).with_providers(vec![2]),
        ASBuilder::new(2).with_providers(vec![3]),
        ASBuilder::new(3),
    ];
    let g = ASGraph::build(acyclic);
    assert!(g.check_for_cycles().is_ok());
}

#[test]
fn test_self_loop_detected() {
    let g = ASGraph::build(vec![ASBuilder::new(7).with_providers(vec![7])]);
    assert!(g.check_for_cycles().is_err());
    let g2 = ASGraph::build(vec![ASBuilder::new(7).with_customers(vec![7])]);
    assert!(g2.check_for_cycles().is_err());
}

#[test]
fn test_provider_cone() {
    // The cone of a tier-1 AS is everything reachable over customer edges.
    let builders = vec![
        ASBuilder::new(1).as_tier_1().with_customers(vec![2]),
        ASBuilder::new(2).with_providers(vec![1]).with_customers(vec![3]),
        ASBuilder::new(3).with_providers(vec![2]),
        ASBuilder::new(9),
    ];
    let mut g = ASGraph::build(builders);
    g.add_provider_cone_asns();
    let cone = &g.get(&1).unwrap().provider_cone_asns;
    assert!(cone.contains(&1));
    assert!(cone.contains(&2));
    assert!(cone.contains(&3));
    assert!(!cone.contains(&9));
    assert!(g.get(&3).unwrap().provider_cone_asns.is_empty());
}

#[test]
fn test_asn_groups() {
    let builders = vec![
        ASBuilder::new(1).as_tier_1().with_customers(vec![2, 3]),
        ASBuilder::new(2).with_providers(vec![1]).with_customers(vec![3]),
        ASBuilder::new(3).with_providers(vec![1, 2]),
    ];
    let mut g = ASGraph::build(builders);
    g.add_asn_groups();
    let tier1 = g.asn_groups.get(&ASNGroups::Tier1).unwrap();
    assert_eq!(tier1.as_slice(), &[1]);
    let stubs = g.asn_groups.get(&ASNGroups::Stubs).unwrap();
    assert_eq!(stubs.as_slice(), &[3]);
    let transit = g.asn_groups.get(&ASNGroups::Transit).unwrap();
    assert!(transit.contains(&1) && transit.contains(&2) && !transit.contains(&3));
    let mh = g.asn_groups.get(&ASNGroups::Multihomed).unwrap();
    assert_eq!(mh.as_slice(), &[3]);
}

#[test]
fn test_rank_zero_iff_no_providers() {
    // On an acyclic graph every AS is ranked, and rank 0 falls exactly on
    // the ASes without providers.
    let builders = vec![
        ASBuilder::new(1).as_tier_1().with_customers(vec![2]),
        ASBuilder::new(2).with_providers(vec![1]).with_customers(vec![3]),
        ASBuilder::new(3).with_providers(vec![2]),
        ASBuilder::new(9),
    ];
    let mut g = ASGraph::build(builders);
    g.assign_as_propagation_rank();
    assert_eq!(g.get(&1).unwrap().propagation_rank, Some(0));
    assert_eq!(g.get(&9).unwrap().propagation_rank, Some(0));
    assert_eq!(g.get(&2).unwrap().propagation_rank, Some(1));
    assert_eq!(g.get(&3).unwrap().propagation_rank, Some(2));
    // The layers list exactly the ASes of each rank.
    assert!(g.propagation_ranks[0].contains(&1));
    assert!(g.propagation_ranks[0].contains(&9));
    assert_eq!(g.propagation_ranks[1], vec![2]);
    assert_eq!(g.propagation_ranks[2], vec![3]);
}
