use bgpsimulator::prefix::Prefix;
use bgpsimulator::route_validator::{ROA, RouteValidator};
use bgpsimulator::shared::{ROARouted, ROAValidity};

#[test]
fn route_validator_test_roa_covers_prefix() {
    let roa = ROA::new(Prefix::v4(10, 0, 0, 0, 8), 65001, Some(24));

    assert!(roa.covers_prefix(&Prefix::v4(10, 1, 1, 0, 24)));
    assert!(!roa.covers_prefix(&Prefix::v4(192, 168, 1, 0, 24)));
}

#[test]
fn test_roa_validity() {
    let roa = ROA::new(Prefix::v4(10, 0, 0, 0, 8), 65001, Some(24));

    // Valid.
    assert_eq!(roa.get_validity(&Prefix::v4(10, 1, 0, 0, 16), 65001), ROAValidity::Valid);

    // Invalid length.
    assert_eq!(roa.get_validity(&Prefix::v4(10, 1, 1, 1, 32), 65001), ROAValidity::InvalidLength);

    // Invalid origin.
    assert_eq!(roa.get_validity(&Prefix::v4(10, 1, 0, 0, 16), 65002), ROAValidity::InvalidOrigin);
}

#[test]
fn test_roa_creation() {
    let prefix = Prefix::v4(10, 0, 0, 0, 8);
    let roa = ROA::new(prefix, 65001, Some(24));

    assert_eq!(roa.prefix, prefix);
    assert_eq!(roa.origin, 65001);
    assert_eq!(roa.max_length, 24);
    assert!(roa.is_routed());
    assert!(!roa.is_non_routed());
}

#[test]
fn route_validator_tests_test_roa_covers_prefix() {
    let roa = ROA::new(Prefix::v4(10, 0, 0, 0, 8), 65001, Some(24));

    // Covers more specific prefixes.
    assert!(roa.covers_prefix(&Prefix::v4(10, 1, 1, 0, 24)));
    assert!(roa.covers_prefix(&Prefix::v4(10, 0, 0, 0, 16)));
    assert!(roa.covers_prefix(&Prefix::v4(10, 255, 255, 0, 24)));

    // Does not cover unrelated prefixes.
    assert!(!roa.covers_prefix(&Prefix::v4(192, 168, 1, 0, 24)));
    assert!(!roa.covers_prefix(&Prefix::v4(172, 16, 0, 0, 12)));
}

#[test]
fn test_roa_validity_valid() {
    let roa = ROA::new(Prefix::v4(10, 0, 0, 0, 8), 65001, Some(24));

    assert_eq!(roa.get_validity(&Prefix::v4(10, 1, 0, 0, 16), 65001), ROAValidity::Valid);
    assert_eq!(roa.get_validity(&Prefix::v4(10, 1, 1, 0, 24), 65001), ROAValidity::Valid);
}

#[test]
fn test_roa_validity_invalid_length() {
    let roa = ROA::new(Prefix::v4(10, 0, 0, 0, 8), 65001, Some(24));

    assert_eq!(roa.get_validity(&Prefix::v4(10, 1, 1, 0, 25), 65001), ROAValidity::InvalidLength);

    assert_eq!(roa.get_validity(&Prefix::v4(10, 1, 1, 1, 32), 65001), ROAValidity::InvalidLength);
}

#[test]
fn test_roa_validity_invalid_origin() {
    let roa = ROA::new(Prefix::v4(10, 0, 0, 0, 8), 65001, Some(24));

    assert_eq!(roa.get_validity(&Prefix::v4(10, 1, 0, 0, 16), 65002), ROAValidity::InvalidOrigin);
}

#[test]
fn test_roa_validity_invalid_both() {
    let roa = ROA::new(Prefix::v4(10, 0, 0, 0, 8), 65001, Some(24));

    assert_eq!(
        roa.get_validity(&Prefix::v4(10, 1, 1, 0, 25), 65002),
        ROAValidity::InvalidLengthAndOrigin
    );
}

#[test]
fn test_roa_validity_unknown() {
    let roa = ROA::new(Prefix::v4(10, 0, 0, 0, 8), 65001, Some(24));

    assert_eq!(roa.get_validity(&Prefix::v4(192, 168, 1, 0, 24), 65001), ROAValidity::Unknown);
}

#[test]
fn test_route_validator_basic() {
    let mut validator = RouteValidator::new();

    let roa = ROA::new(Prefix::v4(10, 0, 0, 0, 8), 65001, Some(24));
    validator.add_roa(roa);

    let (validity, _) = validator.get_roa_outcome(&Prefix::v4(10, 1, 0, 0, 16), 65001);
    assert_eq!(validity, ROAValidity::Valid);

    let (validity, _) = validator.get_roa_outcome(&Prefix::v4(10, 1, 0, 0, 16), 65002);
    assert_eq!(validity, ROAValidity::InvalidOrigin);
}

#[test]
fn test_route_validator_multiple_roas() {
    let mut validator = RouteValidator::new();

    validator.add_roa(ROA::new(Prefix::v4(10, 0, 0, 0, 8), 65001, Some(24)));

    validator.add_roa(ROA::new(Prefix::v4(10, 1, 0, 0, 16), 65002, Some(24)));

    // The more specific ROA authorizes its own origin.
    let (validity, _) = validator.get_roa_outcome(&Prefix::v4(10, 1, 1, 0, 24), 65002);
    assert_eq!(validity, ROAValidity::Valid);

    // The broader ROA still applies elsewhere.
    let (validity, _) = validator.get_roa_outcome(&Prefix::v4(10, 2, 0, 0, 16), 65001);
    assert_eq!(validity, ROAValidity::Valid);
}

#[test]
fn test_route_validator_cache() {
    let mut validator = RouteValidator::new();

    validator.add_roa(ROA::new(Prefix::v4(10, 0, 0, 0, 8), 65001, Some(24)));

    // Two identical queries give the same answer.
    let (validity1, _) = validator.get_roa_outcome(&Prefix::v4(10, 1, 0, 0, 16), 65001);

    let (validity2, _) = validator.get_roa_outcome(&Prefix::v4(10, 1, 0, 0, 16), 65001);

    assert_eq!(validity1, validity2);
    assert_eq!(validity1, ROAValidity::Valid);
}

#[test]
fn test_non_routed_roa() {
    let roa = ROA::new(Prefix::v4(10, 0, 0, 0, 8), 0, Some(24));

    assert!(!roa.is_routed());
    assert!(roa.is_non_routed());
}

#[test]
fn test_covered_prefix_never_unknown() {
    // With only a ROA at the covering prefix, a query for a refinement of it
    // is never unknown.
    let mut validator = RouteValidator::new();
    validator.add_roa(ROA::new(Prefix::v4(10, 0, 0, 0, 24), 777, Some(24)));

    let (validity, routed) = validator.get_roa_outcome(&Prefix::v4(10, 0, 0, 0, 25), 777);
    assert_ne!(validity, ROAValidity::Unknown);
    assert_ne!(routed, ROARouted::Unknown);
    assert_eq!(validity, ROAValidity::InvalidLength);

    let (validity2, _) = validator.get_roa_outcome(&Prefix::v4(10, 0, 0, 128, 25), 666);
    assert_eq!(validity2, ROAValidity::InvalidLengthAndOrigin);
}

#[test]
fn test_best_validity_wins() {
    // Among several covering ROAs the best (smallest ordinal) validity is
    // returned.
    let mut validator = RouteValidator::new();
    validator.add_roa(ROA::new(Prefix::v4(10, 0, 0, 0, 8), 65002, Some(24)));
    validator.add_roa(ROA::new(Prefix::v4(10, 0, 0, 0, 16), 65001, Some(24)));

    // Invalid origin against the first, valid against the second.
    let (validity, _) = validator.get_roa_outcome(&Prefix::v4(10, 0, 1, 0, 24), 65001);
    assert_eq!(validity, ROAValidity::Valid);
}

#[test]
fn test_v6_prefix_separate_family() {
    // An IPv4 ROA covers no IPv6 prefix.
    let mut validator = RouteValidator::new();
    validator.add_roa(ROA::new(Prefix::v4(10, 0, 0, 0, 8), 65001, Some(24)));
    let v6 = Prefix::v6(0x2001, 0xdb8, 0, 0, 0, 0, 0, 0, 32);
    let (validity, _) = validator.get_roa_outcome(&v6, 65001);
    assert_eq!(validity, ROAValidity::Unknown);
}
