//! Enumerations and small shared types used across the simulator.

use vstd::prelude::*;

verus! {

/// How an announcement was received, or to which kind of neighbor it is sent.
#[derive(Debug, Clone, Copy, PartialEq, Eq, Structural, Hash)]
pub enum Relationships {
    Providers,
    Peers,
    Customers,
    Origin,
    Unknown,
}

impl Relationships {
    /// The relationship seen by the receiver when an announcement is sent
    /// along an edge of this kind: providers and customers swap, peers and
    /// origin stay as they are.
    pub open spec fn spec_invert(self) -> Relationships {
        match self {
            Relationships::Providers => Relationships::Customers,
            Relationships::Customers => Relationships::Providers,
            Relationships::Peers => Relationships::Peers,
            Relationships::Origin => Relationships::Origin,
            Relationships::Unknown => Relationships::Unknown,
        }
    }

    pub fn invert(&self) -> (r: Relationships)
        ensures
            r == self.spec_invert(),
    {
        match self {
            Relationships::Providers => Relationships::Customers,
            Relationships::Customers => Relationships::Providers,
            Relationships::Peers => Relationships::Peers,
            Relationships::Origin => Relationships::Origin,
            Relationships::Unknown => Relationships::Unknown,
        }
    }

    /// Display name of the relationship kind.
    pub fn name(&self) -> String {
        match self {
            Relationships::Providers => "PROVIDERS".to_string(),
            Relationships::Peers => "PEERS".to_string(),
            Relationships::Customers => "CUSTOMERS".to_string(),
            Relationships::Origin => "ORIGIN".to_string(),
            Relationships::Unknown => "UNKNOWN".to_string(),
        }
    }
}

/// Named groups of ASNs computed over a finished AS graph.
#[derive(Debug, Clone, Copy, PartialEq, Eq, Structural, Hash)]
pub enum ASNGroups {
    Tier1,
    Etc,
    StubsOrMh,
    Stubs,
    Multihomed,
    Transit,
    Input,
    Ixp,
}

/// Which policy a given AS runs.
#[derive(Debug, Clone, Copy, PartialEq, Eq, Structural, Hash)]
pub enum Settings {
    BaseDefense,
    Rov,
    PeerRov,
    Bgpisec,
    OnlyToCustomers,
    EdgeFilter,
    Bgpsec,
    PathEnd,
    RovppV1Lite,
    RovppV2Lite,
    RovppV2iLite,
    EnforceFirstAs,
    RovEnforceFirstAs,
    Aspa,
    Aspawn,
    Asra,
    PeerLockLite,
    Rost,
    RovEdgeFilter,
    BgpisecTransitive,
    BgpisecTransitiveProConId,
    ProviderConeId,
    BgpisecTransitiveOnlyToCustomers,
}

/// Validity of a (prefix, origin) pair against the set of loaded ROAs,
/// ordered from best to worst.
#[derive(Debug, Clone, Copy, PartialEq, Eq, Structural)]
pub enum ROAValidity {
    Valid,
    Unknown,
    InvalidLength,
    InvalidOrigin,
    InvalidLengthAndOrigin,
}

impl ROAValidity {
    /// Ordinal used to pick the best (smallest) validity among several ROAs.
    pub open spec fn spec_rank(self) -> u8 {
        match self {
            ROAValidity::Valid => 0,
            ROAValidity::Unknown => 1,
            ROAValidity::InvalidLength => 2,
            ROAValidity::InvalidOrigin => 3,
            ROAValidity::InvalidLengthAndOrigin => 4,
        }
    }

    pub fn rank(&self) -> (r: u8)
        ensures
            r == self.spec_rank(),
    {
        match self {
            ROAValidity::Valid => 0,
            ROAValidity::Unknown => 1,
            ROAValidity::InvalidLength => 2,
            ROAValidity::InvalidOrigin => 3,
            ROAValidity::InvalidLengthAndOrigin => 4,
        }
    }
}

/// Whether a covering ROA authorizes a real (routed) origin or ASN 0.
#[derive(Debug, Clone, Copy, PartialEq, Eq, Structural)]
pub enum ROARouted {
    Routed,
    Unknown,
    NonRouted,
}

/// Tie-break timestamp carried by announcements.
#[derive(Debug, Clone, Copy, PartialEq, Eq, Structural)]
pub enum Timestamps {
    Victim,
    Attacker,
}

/// Per-AS classification of an attack outcome.
#[derive(Debug, Clone, Copy, PartialEq, Eq, Structural)]
pub enum Outcomes {
    AttackerSuccess,
    VictimSuccess,
    DisconnectedOrigin,
    DisconnectedAttacker,
    DisconnectedVictim,
    DisconnectedNotAsSomehow,
    HijackedSamePath,
    HijackedButBlackholed,
    HijackedButNotDetected,
}

/// Whether an AS belongs to the adopting set of a scenario.
#[derive(Debug, Clone, Copy, PartialEq, Eq, Structural)]
pub enum InAdoptingASNs {
    True,
    False,
    Notapplicable,
}

/// Well-known ASNs used by the reference attack scenarios.
#[derive(Debug, Clone, Copy, PartialEq, Eq, Structural)]
pub struct CommonASNs;

impl CommonASNs {
    pub const ATTACKER: u32 = 666;

    pub const VICTIM: u32 = 777;
}

/// A policy tag together with an optional RIBs-out toggle, as handed to
/// engine configuration.
#[derive(Debug, Clone)]
pub struct PolicyPropagateInfo {
    pub settings: Settings,
    pub ribs_out: Option<bool>,
}

impl PolicyPropagateInfo {
    pub fn new(settings: Settings) -> (r: PolicyPropagateInfo)
        ensures
            r.settings == settings,
            r.ribs_out is None,
    {
        PolicyPropagateInfo { settings, ribs_out: None }
    }
}

/// The customer-provider subgraph contains a directed cycle or a self-loop.
#[derive(Debug, Clone, Copy, PartialEq, Eq, Structural)]
pub struct CycleError;

impl CycleError {
    /// Human-readable description of the error.
    pub fn message(&self) -> String {
        "Cycle detected in AS graph".to_string()
    }
}

/// An export decision violated the Gao-Rexford rules.
#[derive(Debug, Clone, Copy, PartialEq, Eq, Structural)]
pub struct GaoRexfordError;

impl GaoRexfordError {
    /// Human-readable description of the error.
    pub fn message(&self) -> String {
        "Gao-Rexford error".to_string()
    }
}

/// A RIB lookup did not find the requested announcement.
#[derive(Debug, Clone, Copy, PartialEq, Eq, Structural)]
pub struct AnnouncementNotFoundError;

impl AnnouncementNotFoundError {
    /// Human-readable description of the error.
    pub fn message(&self) -> String {
        "Announcement not found".to_string()
    }
}

} // verus!
