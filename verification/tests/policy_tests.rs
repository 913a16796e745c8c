use bgpsimulator::announcement::Announcement;
use bgpsimulator::as_graph::{ASBuilder, ASGraph};
use bgpsimulator::policy_extensions::{
    create_policy_extension, BGPPolicy, BGPSecPolicy, EnforceFirstASPolicy, OnlyToCustomersPolicy,
    PathEndPolicy, PeerROVPolicy, PeerlockLitePolicy, ProcessingResult, ROVPolicy,
};
use bgpsimulator::prefix::Prefix;
use bgpsimulator::route_validator::ROA;
use bgpsimulator::shared::{Relationships, Settings};

fn create_test_as_graph() -> ASGraph {
    let as1_builder = ASBuilder::new(65001)
        .with_peers(vec![65002, 65003])
        .with_providers(vec![65004])
        .with_customers(vec![65005, 65006]);

    let as2_builder = ASBuilder::new(65002).with_peers(vec![65001]);

    let as3_builder = ASBuilder::new(65003).with_peers(vec![65001]);

    let as4_builder = ASBuilder::new(65004).with_customers(vec![65001]);

    let as5_builder = ASBuilder::new(65005).with_providers(vec![65001]);

    let as6_builder = ASBuilder::new(65006).with_providers(vec![65001]);

    ASGraph::build(vec![
        as1_builder,
        as2_builder,
        as3_builder,
        as4_builder,
        as5_builder,
        as6_builder,
    ])
}

fn create_test_announcement() -> Announcement {
    Announcement::new(Prefix::v4(10, 0, 0, 0, 24), 65002, Relationships::Peers)
}

#[test]
fn test_bgp_policy_validation() {
    let policy = BGPPolicy;
    let as_graph = create_test_as_graph();
    let as_obj = as_graph.get(&65001).unwrap();
    let mut ann = create_test_announcement();
    ann.as_path = vec![65002, 65007];

    // Valid announcement.
    assert!(policy.validate_announcement(&ann, Relationships::Peers, as_obj, None));

    // Invalid: loop detection (AS already in path).
    ann.as_path.push(65001);
    assert!(!policy.validate_announcement(&ann, Relationships::Peers, as_obj, None));

    // Invalid: empty AS path from non-origin.
    let mut empty_path_ann = ann.clone();
    empty_path_ann.as_path.clear();
    assert!(!policy.validate_announcement(&empty_path_ann, Relationships::Peers, as_obj, None));

    // Valid: empty AS path from origin.
    assert!(policy.validate_announcement(&empty_path_ann, Relationships::Origin, as_obj, None));
}

#[test]
fn test_gao_rexford_preferences() {
    let policy = BGPPolicy;

    assert_eq!(policy.get_gao_rexford_preference(Relationships::Customers), 3);
    assert_eq!(policy.get_gao_rexford_preference(Relationships::Peers), 2);
    assert_eq!(policy.get_gao_rexford_preference(Relationships::Providers), 1);
    assert_eq!(policy.get_gao_rexford_preference(Relationships::Origin), 0);
}

#[test]
fn test_propagation_rules() {
    let policy = BGPPolicy;

    // Origin can propagate to anyone.
    assert!(policy.should_propagate(
        &create_test_announcement(),
        Relationships::Origin,
        Relationships::Customers
    ));
    assert!(policy.should_propagate(
        &create_test_announcement(),
        Relationships::Origin,
        Relationships::Peers
    ));
    assert!(policy.should_propagate(
        &create_test_announcement(),
        Relationships::Origin,
        Relationships::Providers
    ));

    // Customer routes go to anyone.
    assert!(policy.should_propagate(
        &create_test_announcement(),
        Relationships::Customers,
        Relationships::Customers
    ));
    assert!(policy.should_propagate(
        &create_test_announcement(),
        Relationships::Customers,
        Relationships::Peers
    ));
    assert!(policy.should_propagate(
        &create_test_announcement(),
        Relationships::Customers,
        Relationships::Providers
    ));

    // Peer routes go to customers only.
    assert!(policy.should_propagate(
        &create_test_announcement(),
        Relationships::Peers,
        Relationships::Customers
    ));
    assert!(!policy.should_propagate(
        &create_test_announcement(),
        Relationships::Peers,
        Relationships::Peers
    ));
    assert!(!policy.should_propagate(
        &create_test_announcement(),
        Relationships::Peers,
        Relationships::Providers
    ));

    // Provider routes go to customers only.
    assert!(policy.should_propagate(
        &create_test_announcement(),
        Relationships::Providers,
        Relationships::Customers
    ));
    assert!(!policy.should_propagate(
        &create_test_announcement(),
        Relationships::Providers,
        Relationships::Peers
    ));
    assert!(!policy.should_propagate(
        &create_test_announcement(),
        Relationships::Providers,
        Relationships::Providers
    ));
}

#[test]
fn test_only_to_customers_policy() {
    let policy = OnlyToCustomersPolicy;
    let as_graph = create_test_as_graph();
    let as_obj = as_graph.get(&65001).unwrap();
    let mut ann = create_test_announcement();

    // Processing a route from a peer marks it.
    let result = policy.process_announcement(&mut ann, Relationships::Peers, as_obj);
    assert_eq!(result, ProcessingResult::Modified);
    assert_eq!(ann.only_to_customers, Some(true));

    // A marked route goes to customers alone.
    assert!(policy.should_propagate(&ann, Relationships::Peers, Relationships::Customers));
    assert!(!policy.should_propagate(&ann, Relationships::Peers, Relationships::Peers));
    assert!(!policy.should_propagate(&ann, Relationships::Peers, Relationships::Providers));

    // A route from a customer stays unmarked.
    let mut ann2 = create_test_announcement();
    let result2 = policy.process_announcement(&mut ann2, Relationships::Customers, as_obj);
    assert_eq!(result2, ProcessingResult::Accept);
    assert_eq!(ann2.only_to_customers, None);
}

#[test]
fn test_rov_policy() {
    let mut rov_policy = ROVPolicy::new();
    let as_graph = create_test_as_graph();
    let as_obj = as_graph.get(&65001).unwrap();

    let prefix = Prefix::v4(10, 0, 0, 0, 24);
    let roa = ROA::new(prefix, 65007, Some(24));
    rov_policy.route_validator.add_roa(roa);

    // Valid: origin matches the ROA.
    let mut ann = create_test_announcement();
    ann.as_path = vec![65002, 65007];
    assert!(rov_policy.validate_announcement(&ann, Relationships::Peers, as_obj, None));

    // Invalid: origin differs from the ROA's.
    ann.as_path = vec![65002, 65008];
    assert!(!rov_policy.validate_announcement(&ann, Relationships::Peers, as_obj, None));

    // Valid: prefix with no covering ROA is unknown, and accepted.
    ann.prefix = Prefix::v4(20, 0, 0, 0, 24);
    assert!(rov_policy.validate_announcement(&ann, Relationships::Peers, as_obj, None));
}

#[test]
fn test_enforce_first_as_policy() {
    let policy = EnforceFirstASPolicy;
    let as_graph = create_test_as_graph();
    let as_obj = as_graph.get(&65001).unwrap();
    let mut ann = create_test_announcement();
    ann.as_path = vec![65002, 65007];

    // Valid: first AS in the path matches the next hop and is a neighbor.
    assert!(policy.validate_announcement(&ann, Relationships::Peers, as_obj, None));

    // Invalid: first AS does not match the next hop.
    ann.next_hop_asn = 65003;
    assert!(!policy.validate_announcement(&ann, Relationships::Peers, as_obj, None));

    // Invalid: the next hop is not a neighbor.
    ann.next_hop_asn = 65009;
    ann.as_path = vec![65009, 65007];
    assert!(!policy.validate_announcement(&ann, Relationships::Peers, as_obj, None));
}

#[test]
fn test_peer_rov_rejects_unknown_from_peers() {
    let peer_rov = PeerROVPolicy::new();
    let as_graph = create_test_as_graph();
    let as_obj = as_graph.get(&65001).unwrap();
    let mut ann = create_test_announcement();
    ann.as_path = vec![65002, 65007];

    // No ROA loaded: the outcome is unknown, rejected from a peer but
    // accepted from a customer.
    assert!(!peer_rov.validate_announcement(&ann, Relationships::Peers, as_obj, None));
    let mut ann2 = create_test_announcement();
    ann2.as_path = vec![65005, 65007];
    ann2.next_hop_asn = 65005;
    assert!(peer_rov.validate_announcement(&ann2, Relationships::Customers, as_obj, None));
}

#[test]
fn test_bgpsec_policy() {
    let policy = BGPSecPolicy;
    let as_graph = create_test_as_graph();
    let as_obj = as_graph.get(&65001).unwrap();

    // A carried BGPSec path must be addressed to this AS and mirror the AS
    // path.
    let mut ann = create_test_announcement();
    ann.as_path = vec![65002, 65007];
    ann.bgpsec_as_path = Some(vec![65002, 65007]);
    ann.bgpsec_next_asn = Some(65001);
    assert!(policy.validate_announcement(&ann, Relationships::Peers, as_obj, None));

    // Addressed elsewhere: invalid.
    ann.bgpsec_next_asn = Some(65002);
    assert!(!policy.validate_announcement(&ann, Relationships::Peers, as_obj, None));

    // A broken mirror is cleared by processing.
    let mut ann2 = create_test_announcement();
    ann2.as_path = vec![65002, 65007];
    ann2.bgpsec_as_path = Some(vec![65003, 65008]);
    ann2.bgpsec_next_asn = Some(65002);
    let r = policy.process_announcement(&mut ann2, Relationships::Peers, as_obj);
    assert_eq!(r, ProcessingResult::Modified);
    assert_eq!(ann2.bgpsec_as_path, None);
}

#[test]
fn test_peerlock_lite_policy() {
    let mut policy = PeerlockLitePolicy::new();
    let mut builders = vec![
        ASBuilder::new(65001).with_customers(vec![65005]),
        ASBuilder::new(65005).with_providers(vec![65001]),
    ];
    builders.push(ASBuilder::new(65010).as_tier_1());
    let as_graph = ASGraph::build(builders);
    policy.setup(&as_graph);
    let as_obj = as_graph.get(&65001).unwrap();

    // A customer route crossing a tier-1 AS is a leak and is rejected.
    let mut ann = create_test_announcement();
    ann.as_path = vec![65005, 65010, 65007];
    ann.next_hop_asn = 65005;
    assert!(!policy.validate_announcement(&ann, Relationships::Customers, as_obj, None));

    // The same route without the tier-1 hop passes.
    ann.as_path = vec![65005, 65007];
    assert!(policy.validate_announcement(&ann, Relationships::Customers, as_obj, None));

    // From a peer the tier-1 hop is no objection.
    let mut ann2 = create_test_announcement();
    ann2.as_path = vec![65002, 65010, 65007];
    assert!(policy.validate_announcement(&ann2, Relationships::Peers, as_obj, None));
}

#[test]
fn test_path_end_policy() {
    let mut policy = PathEndPolicy::new();
    policy.add_legitimate_asn(65007);
    let as_graph = create_test_as_graph();
    let as_obj = as_graph.get(&65001).unwrap();

    let mut ann = create_test_announcement();
    ann.as_path = vec![65002, 65007];
    assert!(policy.validate_announcement(&ann, Relationships::Peers, as_obj, None));

    ann.as_path = vec![65002, 65008];
    assert!(!policy.validate_announcement(&ann, Relationships::Peers, as_obj, None));
}

#[test]
fn test_relationship_invert() {
    assert_eq!(Relationships::Providers.invert(), Relationships::Customers);
    assert_eq!(Relationships::Customers.invert(), Relationships::Providers);
    assert_eq!(Relationships::Peers.invert(), Relationships::Peers);
    assert_eq!(Relationships::Origin.invert(), Relationships::Origin);
}

#[test]
fn test_announcement_copy_and_process() {
    let mut ann = create_test_announcement();
    ann.as_path = vec![65002, 65007];
    let out = ann.copy_and_process(65001, Relationships::Providers);
    assert_eq!(out.as_path, vec![65001, 65002, 65007]);
    assert_eq!(out.next_hop_asn, 65001);
    assert_eq!(out.recv_relationship, Relationships::Providers);
    assert_eq!(out.bgpsec_next_asn, Some(65001));
    assert_eq!(out.origin(), 65007);

    // Withdrawals travel with their path unchanged.
    let mut w = create_test_announcement();
    w.as_path = vec![65002];
    w.withdraw = true;
    let wout = w.copy_and_process(65001, Relationships::Providers);
    assert_eq!(wout.as_path, vec![65002]);
}

#[test]
fn test_policy_factory() {
    assert_eq!(create_policy_extension(Settings::BaseDefense).name(), "BGP");
    assert_eq!(create_policy_extension(Settings::Rov).name(), "ROV");
    assert_eq!(create_policy_extension(Settings::PeerRov).name(), "PeerROV");
    assert_eq!(create_policy_extension(Settings::OnlyToCustomers).name(), "OnlyToCustomers");
    assert_eq!(create_policy_extension(Settings::PathEnd).name(), "PathEnd");
    assert_eq!(create_policy_extension(Settings::EnforceFirstAs).name(), "EnforceFirstAS");
    assert_eq!(create_policy_extension(Settings::Aspa).name(), "ASPA");
    assert_eq!(create_policy_extension(Settings::Bgpsec).name(), "BGPSec");
    assert_eq!(create_policy_extension(Settings::RovppV1Lite).name(), "ROVPPV1Lite");
    assert_eq!(create_policy_extension(Settings::PeerLockLite).name(), "PeerlockLite");
    assert_eq!(create_policy_extension(Settings::EdgeFilter).name(), "ASPathEdgeFilter");
    // Tags without an implemented policy fall back to plain BGP.
    assert_eq!(create_policy_extension(Settings::Rost).name(), "BGP");
}
