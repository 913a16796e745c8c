use bgpsimulator::caida::{parse_u32, CaidaError, CAIDAASGraphJSONConverter};
use bgpsimulator::engine::SimulationEngine;
use bgpsimulator::policy_extensions::{create_policy_extension, PolicyExtension};
use bgpsimulator::prefix::Prefix;
use bgpsimulator::route_validator::{ROA, RouteValidator};
use bgpsimulator::scenarios::{LegitimatePrefixOnly, SubprefixHijack};
use bgpsimulator::shared::{CommonASNs, Settings};
use bgpsimulator::topologies::{create_attack_topology, create_simple_topology};

fn lines(text: &str) -> Vec<Vec<u8>> {
    text.lines().map(|l| l.as_bytes().to_vec()).collect()
}

#[test]
fn test_caida_convert_symmetric() {
    let converter = CAIDAASGraphJSONConverter::new(String::new());
    let input = lines(
        "# input clique: 1 2\n\
         # IXP ASes: 9\n\
         1|3|-1\n\
         2|3|-1\n\
         3|4|-1\n\
         1|2|0\n\
         9|3|0\n",
    );
    let g = converter.convert(&input).unwrap();

    // Provider-of edges appear in both node records.
    let as1 = g.get(&1).unwrap();
    let as3 = g.get(&3).unwrap();
    assert!(as1.customers.contains(&3));
    assert!(as3.providers.contains(&1));
    assert!(as3.customers.contains(&4));
    assert!(g.get(&4).unwrap().providers.contains(&3));

    // Peer edges appear on both sides.
    assert!(as1.peers.contains(&2));
    assert!(g.get(&2).unwrap().peers.contains(&1));
    assert!(as3.peers.contains(&9));
    assert!(g.get(&9).unwrap().peers.contains(&3));

    // Flags from the comment headers.
    assert!(as1.tier_1);
    assert!(g.get(&2).unwrap().tier_1);
    assert!(!as3.tier_1);
    assert!(g.get(&9).unwrap().ixp);

    // Ranks were assigned; a customer sits strictly below its provider.
    let r1 = as1.propagation_rank.unwrap();
    let r3 = as3.propagation_rank.unwrap();
    assert!(r1 < r3);

    // The tier-1 provider cone reaches every customer-descendant.
    assert!(as1.provider_cone_asns.contains(&4));
}

#[test]
fn test_caida_convert_rejects_cycle() {
    let converter = CAIDAASGraphJSONConverter::new(String::new());
    let input = lines("1|2|-1\n2|1|-1\n");
    match converter.convert(&input) {
        Err(e) => assert_eq!(e, CaidaError::Cycle),
        Ok(_) => panic!("a cyclic relationship file must be rejected"),
    }
}

#[test]
fn test_caida_convert_rejects_bad_asn() {
    let converter = CAIDAASGraphJSONConverter::new(String::new());
    let input = lines("1|x|-1\n");
    match converter.convert(&input) {
        Err(e) => assert_eq!(e, CaidaError::Parse),
        Ok(_) => panic!("an unparsable ASN must be rejected"),
    }
}

#[test]
fn test_caida_unknown_relationship_skipped() {
    let converter = CAIDAASGraphJSONConverter::new(String::new());
    let input = lines("1|2|7\n3|4|-1\n");
    let g = converter.convert(&input).unwrap();
    // The unknown relationship adds no edge between its endpoints.
    assert!(g.get(&1).unwrap().customers.is_empty());
    assert!(g.get(&1).unwrap().peers.is_empty());
    assert!(g.get(&3).unwrap().customers.contains(&4));
}

#[test]
fn test_simple_topology() {
    let g = create_simple_topology();
    assert_eq!(g.len(), 3);
    assert!(g.get(&65001).unwrap().tier_1);
    assert!(g.get(&65002).unwrap().customers.contains(&65003));
}

#[test]
fn test_subprefix_hijack_undefended() {
    // Without any defense the more specific /25 wins wherever it arrives.
    let g = create_attack_topology();
    let mut engine = SimulationEngine::new(g);
    let scenario = SubprefixHijack::new(vec![CommonASNs::ATTACKER], vec![CommonASNs::VICTIM]);
    let mut validator = RouteValidator::new();
    scenario.setup_engine(&mut engine, &mut validator);
    engine.run(10);
    assert!(scenario.is_successful(&engine));
}

#[test]
fn test_rov_defense_blocks_subprefix() {
    // With every AS running ROV and a ROA of maximum length 24 for the
    // victim, the /25 is invalid by length: no ROV AS accepts it and the
    // hijack fails.
    let g = create_attack_topology();
    let mut engine = SimulationEngine::new(g);
    let scenario = SubprefixHijack::new(vec![CommonASNs::ATTACKER], vec![CommonASNs::VICTIM]);

    let roa = ROA::new(scenario.legitimate_prefix, CommonASNs::VICTIM, Some(24));
    let all_asns: Vec<u32> = vec![1, 2, 3, 4, 5, 6, 7, 8, 9, 10, CommonASNs::VICTIM];
    for asn in all_asns {
        let policy = engine.policy_store.get_mut(&asn).unwrap();
        policy.settings = Settings::Rov;
        let mut ext = create_policy_extension(Settings::Rov);
        match &mut ext {
            PolicyExtension::Rov(p) => p.route_validator.add_roa(roa.clone()),
            _ => panic!("expected the ROV extension"),
        }
        policy.extension = ext;
    }

    let mut validator = RouteValidator::new();
    scenario.setup_engine(&mut engine, &mut validator);
    engine.run(10);

    assert!(!scenario.is_successful(&engine));
    // No ROV-running AS carries the hijacked subprefix.
    for asn in [1u32, 2, 3, 4, 5, 6, 7, 8, 9, 10] {
        assert!(!engine.has_route(asn, &scenario.hijacked_prefix));
    }
    // The legitimate /24 still spreads.
    assert!(engine.has_route(1, &scenario.legitimate_prefix));
}

#[test]
fn test_legitimate_prefix_only_succeeds() {
    let g = create_simple_topology();
    let mut g = g;
    g.assign_as_propagation_rank();
    let mut engine = SimulationEngine::new(g);
    let scenario = LegitimatePrefixOnly::new(vec![65003]);
    let mut validator = RouteValidator::new();
    scenario.setup_engine(&mut engine, &mut validator);
    engine.run(5);
    // All three ASes hold the route: 3 of 3 is more than four fifths.
    assert!(scenario.is_successful(&engine));
    assert!(engine.has_route(65001, &scenario.legitimate_prefix()));
}

#[test]
fn test_prefix_parsing_helpers() {
    let line: Vec<u8> = b"12345 junk 007".to_vec();
    assert_eq!(parse_u32(&line, 0, 5), Some(12345));
    assert_eq!(parse_u32(&line, 6, 10), None);
    assert_eq!(parse_u32(&line, 11, 14), Some(7));
    // Too large for a 32-bit ASN.
    let big: Vec<u8> = b"99999999999".to_vec();
    assert_eq!(parse_u32(&big, 0, 11), None);
}

#[test]
fn test_prefix_covers() {
    let p24 = Prefix::v4(10, 0, 0, 0, 24);
    let p25 = Prefix::v4(10, 0, 0, 128, 25);
    assert!(p24.covers(&p25));
    assert!(!p25.covers(&p24));
    assert!(p24.covers(&p24));
    let other = Prefix::v4(10, 0, 1, 0, 24);
    assert!(!p24.covers(&other));
    // The zero-length prefix covers everything in its family.
    let default_route = Prefix::v4(0, 0, 0, 0, 0);
    assert!(default_route.covers(&p24));
    assert!(!default_route.covers(&Prefix::v6(0, 0, 0, 0, 0, 0, 0, 0, 0)));
}
