//! The per-AS policy extensions: validation, processing, export gating and
//! route comparison for plain BGP and the defensive policies layered on it.

use core::cmp::Ordering;
use vstd::prelude::*;

use crate::announcement::{AnnView, Announcement, ASN};
use crate::as_graph::{ASGraph, ASView, AS};
use crate::route_validator::{spec_roa_outcome, RouteValidator, ROA};
use crate::shared::{ROAValidity, Relationships, Settings};
use crate::vecs::contains_asn;

verus! {

/// What processing an announcement did to it.
#[derive(Debug, Clone, Copy, PartialEq, Eq, Structural)]
pub enum ProcessingResult {
    Accept,
    Reject,
    Modified,
}

/// The standard checks every policy applies to an incoming announcement:
/// no loop through the receiving AS, an empty path only at the origin
/// (withdrawals excepted), and a first hop that matches the next hop.
pub open spec fn spec_default_validate(a: AnnView, rel: Relationships, self_asn: ASN) -> bool {
    if a.as_path.contains(self_asn) {
        false
    } else if a.as_path.len() == 0 && rel != Relationships::Origin && !a.withdraw {
        false
    } else if a.as_path.len() > 0 && a.as_path[0] != a.next_hop_asn {
        false
    } else {
        true
    }
}

/// Gao-Rexford preference of the relationship a route was learned over:
/// customer routes beat peer routes beat provider routes.
pub open spec fn spec_gao_rexford_preference(rel: Relationships) -> u8 {
    match rel {
        Relationships::Customers => 3,
        Relationships::Peers => 2,
        Relationships::Providers => 1,
        _ => 0,
    }
}

/// The Gao-Rexford export rule: routes learned from a customer or originated
/// locally go to every neighbor; routes learned from a peer or a provider go
/// to customers only.
pub open spec fn spec_default_should_propagate(recv: Relationships, send: Relationships) -> bool {
    match (recv, send) {
        (Relationships::Origin, _) => true,
        (Relationships::Customers, _) => true,
        (Relationships::Peers, Relationships::Customers) => true,
        (Relationships::Providers, Relationships::Customers) => true,
        _ => false,
    }
}

/// The standard route order: higher Gao-Rexford preference first, then the
/// shorter AS path, then the lower next hop. `Less` means the first
/// announcement is preferred.
pub open spec fn spec_default_compare(
    a1: AnnView,
    a2: AnnView,
    rel1: Relationships,
    rel2: Relationships,
) -> Ordering {
    let p1 = spec_gao_rexford_preference(rel1);
    let p2 = spec_gao_rexford_preference(rel2);
    if p2 < p1 {
        Ordering::Less
    } else if p2 > p1 {
        Ordering::Greater
    } else if a1.as_path.len() < a2.as_path.len() {
        Ordering::Less
    } else if a1.as_path.len() > a2.as_path.len() {
        Ordering::Greater
    } else if a1.next_hop_asn < a2.next_hop_asn {
        Ordering::Less
    } else if a1.next_hop_asn > a2.next_hop_asn {
        Ordering::Greater
    } else {
        Ordering::Equal
    }
}

/// The standard checks, executable.
pub fn default_validate(ann: &Announcement, rel: Relationships, as_obj: &AS) -> (r: bool)
    ensures
        r == spec_default_validate(ann@, rel, as_obj@.asn),
{
    if contains_asn(&ann.as_path, as_obj.asn) {
        return false;
    }
    if ann.as_path.len() == 0 && !matches!(rel, Relationships::Origin) && !ann.withdraw {
        return false;
    }
    if ann.as_path.len() > 0 && ann.as_path[0] != ann.next_hop_asn {
        return false;
    }
    true
}

/// Gao-Rexford preference, executable.
pub fn gao_rexford_preference(rel: Relationships) -> (r: u8)
    ensures
        r == spec_gao_rexford_preference(rel),
{
    match rel {
        Relationships::Customers => 3,
        Relationships::Peers => 2,
        Relationships::Providers => 1,
        _ => 0,
    }
}

/// The Gao-Rexford export rule, executable.
pub fn default_should_propagate(recv: Relationships, send: Relationships) -> (r: bool)
    ensures
        r == spec_default_should_propagate(recv, send),
{
    match (recv, send) {
        (Relationships::Origin, _) => true,
        (Relationships::Customers, _) => true,
        (Relationships::Peers, Relationships::Customers) => true,
        (Relationships::Providers, Relationships::Customers) => true,
        _ => false,
    }
}

/// The standard route order, executable.
pub fn default_compare(
    ann1: &Announcement,
    ann2: &Announcement,
    rel1: Relationships,
    rel2: Relationships,
) -> (r: Ordering)
    ensures
        r == spec_default_compare(ann1@, ann2@, rel1, rel2),
{
    let p1 = gao_rexford_preference(rel1);
    let p2 = gao_rexford_preference(rel2);
    if p2 < p1 {
        Ordering::Less
    } else if p2 > p1 {
        Ordering::Greater
    } else if ann1.as_path.len() < ann2.as_path.len() {
        Ordering::Less
    } else if ann1.as_path.len() > ann2.as_path.len() {
        Ordering::Greater
    } else if ann1.next_hop_asn < ann2.next_hop_asn {
        Ordering::Less
    } else if ann1.next_hop_asn > ann2.next_hop_asn {
        Ordering::Greater
    } else {
        Ordering::Equal
    }
}

/// Whether an ASN is a neighbor of an AS under any relationship.
pub open spec fn spec_is_neighbor(asv: ASView, n: ASN) -> bool {
    asv.peers.contains(n) || asv.providers.contains(n) || asv.customers.contains(n)
}

/// The ROV acceptance rule applied to a validity outcome: valid and unknown
/// routes pass, every invalid outcome is dropped.
pub open spec fn spec_rov_accepts(validity: ROAValidity) -> bool {
    validity is Valid || validity is Unknown
}

/// Plain BGP: the defaults and nothing else.
#[derive(Debug, Clone, Copy, PartialEq, Eq, Structural)]
pub struct BGPPolicy;

impl BGPPolicy {
    pub fn validate_announcement(
        &self,
        ann: &Announcement,
        recv_relationship: Relationships,
        as_obj: &AS,
        _route_validator: Option<&RouteValidator>,
    ) -> (r: bool)
        ensures
            r == spec_default_validate(ann@, recv_relationship, as_obj@.asn),
    {
        default_validate(ann, recv_relationship, as_obj)
    }

    pub fn should_propagate(
        &self,
        _ann: &Announcement,
        recv_relationship: Relationships,
        send_relationship: Relationships,
    ) -> (r: bool)
        ensures
            r == spec_default_should_propagate(recv_relationship, send_relationship),
    {
        default_should_propagate(recv_relationship, send_relationship)
    }

    pub fn get_gao_rexford_preference(&self, rel: Relationships) -> (r: u8)
        ensures
            r == spec_gao_rexford_preference(rel),
    {
        gao_rexford_preference(rel)
    }

    pub fn name(&self) -> (r: &'static str)
        ensures
            r@ == "BGP"@,
    {
        "BGP"
    }
}

/// Route Origin Validation: the defaults plus a ROA check on the origin,
/// with unknown outcomes accepted.
#[derive(Debug)]
pub struct ROVPolicy {
    pub route_validator: RouteValidator,
}

/// ROV validation: the standard checks plus the ROA outcome of the
/// announcement's prefix and origin, with invalid outcomes rejected.
pub open spec fn spec_rov_validate(
    roas: Seq<ROA>,
    a: AnnView,
    rel: Relationships,
    self_asn: ASN,
) -> bool {
    spec_default_validate(a, rel, self_asn) && spec_rov_accepts(
        spec_roa_outcome(roas, a.prefix, a.spec_origin()).0,
    )
}

impl ROVPolicy {
    pub fn new() -> (r: ROVPolicy)
        ensures
            r.route_validator@ =~= Seq::<ROA>::empty(),
            r.route_validator.wf(),
    {
        ROVPolicy { route_validator: RouteValidator::new() }
    }

    pub fn validate_announcement(
        &self,
        ann: &Announcement,
        recv_relationship: Relationships,
        as_obj: &AS,
        _route_validator: Option<&RouteValidator>,
    ) -> (r: bool)
        requires
            self.route_validator.wf(),
            ann@.prefix.wf(),
        ensures
            r == spec_rov_validate(self.route_validator@, ann@, recv_relationship, as_obj@.asn),
    {
        if !default_validate(ann, recv_relationship, as_obj) {
            return false;
        }
        let origin = ann.origin();
        let (validity, _) = self.route_validator.get_roa_outcome(&ann.prefix, origin);
        match validity {
            ROAValidity::Valid => true,
            ROAValidity::Unknown => true,
            _ => false,
        }
    }

    pub fn name(&self) -> (r: &'static str)
        ensures
            r@ == "ROV"@,
    {
        "ROV"
    }
}

/// Peer ROV: like ROV, but unknown outcomes are rejected when the route was
/// learned from a peer.
#[derive(Debug)]
pub struct PeerROVPolicy {
    pub route_validator: RouteValidator,
}

/// Peer-ROV validation: valid outcomes pass; unknown outcomes pass only off
/// peer edges; invalid outcomes are rejected.
pub open spec fn spec_peer_rov_validate(
    roas: Seq<ROA>,
    a: AnnView,
    rel: Relationships,
    self_asn: ASN,
) -> bool {
    spec_default_validate(a, rel, self_asn) && {
        let validity = spec_roa_outcome(roas, a.prefix, a.spec_origin()).0;
        validity is Valid || (validity is Unknown && rel != Relationships::Peers)
    }
}

impl PeerROVPolicy {
    pub fn new() -> (r: PeerROVPolicy)
        ensures
            r.route_validator@ =~= Seq::<ROA>::empty(),
            r.route_validator.wf(),
    {
        PeerROVPolicy { route_validator: RouteValidator::new() }
    }

    pub fn validate_announcement(
        &self,
        ann: &Announcement,
        recv_relationship: Relationships,
        as_obj: &AS,
        _route_validator: Option<&RouteValidator>,
    ) -> (r: bool)
        requires
            self.route_validator.wf(),
            ann@.prefix.wf(),
        ensures
            r == spec_peer_rov_validate(
                self.route_validator@,
                ann@,
                recv_relationship,
                as_obj@.asn,
            ),
    {
        if !default_validate(ann, recv_relationship, as_obj) {
            return false;
        }
        let origin = ann.origin();
        let (validity, _) = self.route_validator.get_roa_outcome(&ann.prefix, origin);
        match validity {
            ROAValidity::Valid => true,
            ROAValidity::Unknown => !matches!(recv_relationship, Relationships::Peers),
            _ => false,
        }
    }

    pub fn name(&self) -> (r: &'static str)
        ensures
            r@ == "PeerROV"@,
    {
        "PeerROV"
    }
}

/// Only-to-customers: routes learned from peers or providers are marked and
/// then exported to customers alone.
#[derive(Debug, Clone, Copy, PartialEq, Eq, Structural)]
pub struct OnlyToCustomersPolicy;

/// OTC processing: mark announcements received from peers or providers.
pub open spec fn spec_otc_process(a: AnnView, rel: Relationships) -> (AnnView, ProcessingResult) {
    match rel {
        Relationships::Peers | Relationships::Providers => (
            AnnView { only_to_customers: Some(true), ..a },
            ProcessingResult::Modified,
        ),
        _ => (a, ProcessingResult::Accept),
    }
}

/// OTC export: a marked announcement goes to customers only; an unmarked one
/// follows the Gao-Rexford defaults.
pub open spec fn spec_otc_should_propagate(
    a: AnnView,
    recv: Relationships,
    send: Relationships,
) -> bool {
    if a.only_to_customers == Some(true) {
        send is Customers
    } else {
        spec_default_should_propagate(recv, send)
    }
}

impl OnlyToCustomersPolicy {
    pub fn process_announcement(
        &self,
        ann: &mut Announcement,
        recv_relationship: Relationships,
        _as_obj: &AS,
    ) -> (r: ProcessingResult)
        ensures
            final(ann)@ == spec_otc_process(old(ann)@, recv_relationship).0,
            r == spec_otc_process(old(ann)@, recv_relationship).1,
    {
        match recv_relationship {
            Relationships::Peers | Relationships::Providers => {
                ann.only_to_customers = Some(true);
                proof {
                    assert(ann@ =~= spec_otc_process(old(ann)@, recv_relationship).0);
                }
                ProcessingResult::Modified
            },
            _ => {
                proof {
                    assert(ann@ =~= spec_otc_process(old(ann)@, recv_relationship).0);
                }
                ProcessingResult::Accept
            },
        }
    }

    pub fn should_propagate(
        &self,
        ann: &Announcement,
        recv_relationship: Relationships,
        send_relationship: Relationships,
    ) -> (r: bool)
        ensures
            r == spec_otc_should_propagate(ann@, recv_relationship, send_relationship),
    {
        let marked = match ann.only_to_customers {
            Some(true) => true,
            _ => false,
        };
        if marked {
            matches!(send_relationship, Relationships::Customers)
        } else {
            default_should_propagate(recv_relationship, send_relationship)
        }
    }

    pub fn name(&self) -> (r: &'static str)
        ensures
            r@ == "OnlyToCustomers"@,
    {
        "OnlyToCustomers"
    }
}

/// Path-end validation: the origin of every route must belong to a
/// scenario-supplied set of legitimate origins.
#[derive(Debug, Clone)]
pub struct PathEndPolicy {
    pub legitimate_asns: Vec<ASN>,
}

/// Path-end validation: the standard checks plus origin membership in the
/// legitimate set, for routes with a non-empty path.
pub open spec fn spec_path_end_validate(
    legit: Seq<ASN>,
    a: AnnView,
    rel: Relationships,
    self_asn: ASN,
) -> bool {
    spec_default_validate(a, rel, self_asn) && (a.as_path.len() > 0 ==> legit.contains(
        a.as_path.last(),
    ))
}

impl PathEndPolicy {
    pub fn new() -> (r: PathEndPolicy)
        ensures
            r.legitimate_asns@.len() == 0,
    {
        PathEndPolicy { legitimate_asns: Vec::new() }
    }

    /// Record one more legitimate origin.
    pub fn add_legitimate_asn(&mut self, asn: ASN)
        ensures
            forall|y: ASN|
                final(self).legitimate_asns@.contains(y) <==> (old(
                    self,
                ).legitimate_asns@.contains(y) || y == asn),
    {
        crate::vecs::push_unique(&mut self.legitimate_asns, asn);
    }

    pub fn validate_announcement(
        &self,
        ann: &Announcement,
        recv_relationship: Relationships,
        as_obj: &AS,
        _route_validator: Option<&RouteValidator>,
    ) -> (r: bool)
        ensures
            r == spec_path_end_validate(
                self.legitimate_asns@,
                ann@,
                recv_relationship,
                as_obj@.asn,
            ),
    {
        if !default_validate(ann, recv_relationship, as_obj) {
            return false;
        }
        if ann.as_path.len() > 0 {
            let origin = ann.as_path[ann.as_path.len() - 1];
            if !contains_asn(&self.legitimate_asns, origin) {
                return false;
            }
        }
        true
    }

    pub fn name(&self) -> (r: &'static str)
        ensures
            r@ == "PathEnd"@,
    {
        "PathEnd"
    }
}

/// Enforce-first-AS: the next hop must really be a neighbor of the
/// receiving AS.
#[derive(Debug, Clone, Copy, PartialEq, Eq, Structural)]
pub struct EnforceFirstASPolicy;

/// Enforce-first-AS validation: the standard checks plus a neighbor check on
/// the next hop.
pub open spec fn spec_enforce_first_as_validate(
    a: AnnView,
    rel: Relationships,
    asv: ASView,
) -> bool {
    spec_default_validate(a, rel, asv.asn) && spec_is_neighbor(asv, a.next_hop_asn)
}

impl EnforceFirstASPolicy {
    pub fn validate_announcement(
        &self,
        ann: &Announcement,
        recv_relationship: Relationships,
        as_obj: &AS,
        _route_validator: Option<&RouteValidator>,
    ) -> (r: bool)
        ensures
            r == spec_enforce_first_as_validate(ann@, recv_relationship, as_obj@),
    {
        if !default_validate(ann, recv_relationship, as_obj) {
            return false;
        }
        contains_asn(&as_obj.peers, ann.next_hop_asn) || contains_asn(
            &as_obj.providers,
            ann.next_hop_asn,
        ) || contains_asn(&as_obj.customers, ann.next_hop_asn)
    }

    pub fn name(&self) -> (r: &'static str)
        ensures
            r@ == "EnforceFirstAS"@,
    {
        "EnforceFirstAS"
    }
}

/// ASPA: provider attestations along the path. No attestation data is
/// modeled, so the per-edge check authorizes every edge, as an AS without an
/// attestation must be treated.
#[derive(Debug, Clone, Copy, PartialEq, Eq, Structural)]
pub struct ASPAPolicy;

/// The ASPA per-edge check: an AS without an attestation constrains nothing,
/// and no attestation data is modeled.
pub open spec fn spec_aspa_provider_check(asn1: ASN, asn2: ASN) -> bool {
    true
}

/// ASPA validation: basic loop and origin checks, plus a next hop that heads
/// the path unless the receiver is an IXP route server, plus ramp coverage
/// of the whole path.
pub open spec fn spec_aspa_validate(a: AnnView, rel: Relationships, asv: ASView) -> bool {
    &&& !a.as_path.contains(asv.asn)
    &&& !(a.as_path.len() == 0 && rel != Relationships::Origin)
    &&& ((a.as_path.len() > 0 && a.as_path[0] == a.next_hop_asn) || asv.ixp)
}

impl ASPAPolicy {
    /// Whether one AS authorizes another as its provider. Without modeled
    /// attestation data every pair passes.
    pub fn provider_check(&self, asn1: ASN, asn2: ASN, _as_graph: &ASGraph) -> (r: bool)
        ensures
            r == spec_aspa_provider_check(asn1, asn2),
    {
        true
    }

    /// Length of the longest provider-authorized climb at the origin end of
    /// the path; with no attestations the whole path qualifies.
    pub fn get_max_up_ramp_length(&self, ann: &Announcement, as_graph: &ASGraph) -> (r: usize)
        ensures
            r == ann@.as_path.len(),
    {
        let n = ann.as_path.len();
        if n == 0 {
            return 0;
        }
        let mut i: usize = 0;
        while i < n - 1
            invariant
                n == ann@.as_path.len(),
                n >= 1,
                i <= n - 1,
            decreases n - 1 - i,
        {
            let a1 = ann.as_path[n - 1 - i];
            let a2 = ann.as_path[n - 1 - (i + 1)];
            if !self.provider_check(a1, a2, as_graph) {
                return i + 1;
            }
            i = i + 1;
        }
        n
    }

    /// Length of the longest provider-authorized descent at the receiving
    /// end of the path; with no attestations the whole path qualifies.
    pub fn get_max_down_ramp_length(&self, ann: &Announcement, as_graph: &ASGraph) -> (r: usize)
        ensures
            r == ann@.as_path.len(),
    {
        let n = ann.as_path.len();
        if n == 0 {
            return 0;
        }
        let mut i: usize = n - 1;
        while i >= 1
            invariant
                n == ann@.as_path.len(),
                n >= 1,
                i <= n - 1,
            decreases i,
        {
            let a1 = ann.as_path[n - 1 - i];
            let a2 = ann.as_path[n - 1 - (i - 1)];
            if !self.provider_check(a1, a2, as_graph) {
                return n - i;
            }
            i = i - 1;
        }
        n
    }

    pub fn validate_announcement(
        &self,
        ann: &Announcement,
        recv_relationship: Relationships,
        as_obj: &AS,
        as_graph: &ASGraph,
    ) -> (r: bool)
        ensures
            r == spec_aspa_validate(ann@, recv_relationship, as_obj@),
    {
        if contains_asn(&ann.as_path, as_obj.asn) {
            return false;
        }
        if ann.as_path.len() == 0 && !matches!(recv_relationship, Relationships::Origin) {
            return false;
        }
        let next_hop_ok = (ann.as_path.len() > 0 && ann.as_path[0] == ann.next_hop_asn)
            || as_obj.ixp;
        if !next_hop_ok {
            return false;
        }
        let up = self.get_max_up_ramp_length(ann, as_graph);
        let down = self.get_max_down_ramp_length(ann, as_graph);
        let n = ann.as_path.len();
        up >= n - down
    }

    pub fn name(&self) -> (r: &'static str)
        ensures
            r@ == "ASPA"@,
    {
        "ASPA"
    }
}


/// BGPSec: cryptographic path validation modeled through the mirrored
/// BGPSec path and next-ASN fields.
#[derive(Debug, Clone, Copy, PartialEq, Eq, Structural)]
pub struct BGPSecPolicy;

/// A BGPSec path is intact when it mirrors the AS path exactly.
pub open spec fn spec_bgpsec_intact(a: AnnView) -> bool {
    a.bgpsec_as_path == Some(a.as_path)
}

/// BGPSec validation: loop and origin checks, and any carried BGPSec path
/// must be addressed to this AS and mirror the AS path.
pub open spec fn spec_bgpsec_validate(a: AnnView, rel: Relationships, self_asn: ASN) -> bool {
    &&& !a.as_path.contains(self_asn)
    &&& !(a.as_path.len() == 0 && rel != Relationships::Origin)
    &&& match a.bgpsec_as_path {
        Some(p) => a.bgpsec_next_asn == Some(self_asn) && p == a.as_path,
        None => true,
    }
}

/// BGPSec processing: a carried path addressed to this AS whose tail mirrors
/// the AS path is refreshed to the full AS path; any other carried path is
/// cleared.
pub open spec fn spec_bgpsec_process(a: AnnView, self_asn: ASN) -> (AnnView, ProcessingResult) {
    match a.bgpsec_as_path {
        Some(p) => {
            if a.bgpsec_next_asn == Some(self_asn) && p.len() >= 1 && a.as_path.len() >= 1
                && p.skip(1) == a.as_path.skip(1) {
                (AnnView { bgpsec_as_path: Some(a.as_path), ..a }, ProcessingResult::Modified)
            } else {
                (AnnView { bgpsec_as_path: None, ..a }, ProcessingResult::Modified)
            }
        },
        None => (a, ProcessingResult::Accept),
    }
}

/// BGPSec route order: an intact BGPSec path beats a missing or broken one;
/// otherwise the standard order decides.
pub open spec fn spec_bgpsec_compare(
    a1: AnnView,
    a2: AnnView,
    rel1: Relationships,
    rel2: Relationships,
) -> Ordering {
    if spec_bgpsec_intact(a1) && !spec_bgpsec_intact(a2) {
        Ordering::Less
    } else if !spec_bgpsec_intact(a1) && spec_bgpsec_intact(a2) {
        Ordering::Greater
    } else {
        spec_default_compare(a1, a2, rel1, rel2)
    }
}

/// Whether an announcement's BGPSec path is intact, executable.
fn bgpsec_intact(ann: &Announcement) -> (r: bool)
    ensures
        r == spec_bgpsec_intact(ann@),
{
    match ann.bgpsec_as_path {
        Some(ref p) => crate::vecs::u32_vec_eq(p, &ann.as_path),
        None => false,
    }
}

impl BGPSecPolicy {
    pub fn validate_announcement(
        &self,
        ann: &Announcement,
        recv_relationship: Relationships,
        as_obj: &AS,
        _route_validator: Option<&RouteValidator>,
    ) -> (r: bool)
        ensures
            r == spec_bgpsec_validate(ann@, recv_relationship, as_obj@.asn),
    {
        if contains_asn(&ann.as_path, as_obj.asn) {
            return false;
        }
        if ann.as_path.len() == 0 && !matches!(recv_relationship, Relationships::Origin) {
            return false;
        }
        match ann.bgpsec_as_path {
            Some(ref p) => {
                ann.bgpsec_next_asn == Some(as_obj.asn) && crate::vecs::u32_vec_eq(p, &ann.as_path)
            },
            None => true,
        }
    }

    pub fn process_announcement(
        &self,
        ann: &mut Announcement,
        _recv_relationship: Relationships,
        as_obj: &AS,
    ) -> (r: ProcessingResult)
        ensures
            final(ann)@ == spec_bgpsec_process(old(ann)@, as_obj@.asn).0,
            r == spec_bgpsec_process(old(ann)@, as_obj@.asn).1,
    {
        let has_path = matches!(ann.bgpsec_as_path, Some(_));
        if !has_path {
            return ProcessingResult::Accept;
        }
        let tail_ok = match ann.bgpsec_as_path {
            Some(ref p) => {
                ann.bgpsec_next_asn == Some(as_obj.asn) && p.len() >= 1 && ann.as_path.len() >= 1
                    && crate::vecs::u32_suffix_eq(p, &ann.as_path, 1)
            },
            None => false,
        };
        if tail_ok {
            ann.bgpsec_as_path = Some(crate::announcement::clone_asn_vec(&ann.as_path));
            proof {
                assert(ann@ =~= spec_bgpsec_process(old(ann)@, as_obj@.asn).0);
            }
        } else {
            ann.bgpsec_as_path = None;
            proof {
                assert(ann@ =~= spec_bgpsec_process(old(ann)@, as_obj@.asn).0);
            }
        }
        ProcessingResult::Modified
    }

    pub fn should_propagate(
        &self,
        _ann: &Announcement,
        recv_relationship: Relationships,
        send_relationship: Relationships,
    ) -> (r: bool)
        ensures
            r == spec_default_should_propagate(recv_relationship, send_relationship),
    {
        default_should_propagate(recv_relationship, send_relationship)
    }

    pub fn compare_announcements(
        &self,
        ann1: &Announcement,
        ann2: &Announcement,
        rel1: Relationships,
        rel2: Relationships,
        _as_obj: &AS,
    ) -> (r: Ordering)
        ensures
            r == spec_bgpsec_compare(ann1@, ann2@, rel1, rel2),
    {
        let i1 = bgpsec_intact(ann1);
        let i2 = bgpsec_intact(ann2);
        if i1 && !i2 {
            Ordering::Less
        } else if !i1 && i2 {
            Ordering::Greater
        } else {
            default_compare(ann1, ann2, rel1, rel2)
        }
    }

    pub fn name(&self) -> (r: &'static str)
        ensures
            r@ == "BGPSec"@,
    {
        "BGPSec"
    }
}

/// ROV++ V1 Lite: ROV validation plus blackhole handling; blackholed routes
/// are held but never propagated.
#[derive(Debug)]
pub struct ROVPPV1LitePolicy {
    pub route_validator: RouteValidator,
}

/// ROV++ processing: a blackhole-marked announcement counts as modified.
pub open spec fn spec_rovpp_process(a: AnnView) -> (AnnView, ProcessingResult) {
    if a.rovpp_blackhole == Some(true) {
        (a, ProcessingResult::Modified)
    } else {
        (a, ProcessingResult::Accept)
    }
}

/// ROV++ export: a blackhole-marked announcement never leaves the AS.
pub open spec fn spec_rovpp_should_propagate(
    a: AnnView,
    recv: Relationships,
    send: Relationships,
) -> bool {
    if a.rovpp_blackhole == Some(true) {
        false
    } else {
        spec_default_should_propagate(recv, send)
    }
}

impl ROVPPV1LitePolicy {
    pub fn new() -> (r: ROVPPV1LitePolicy)
        ensures
            r.route_validator@ =~= Seq::<ROA>::empty(),
            r.route_validator.wf(),
    {
        ROVPPV1LitePolicy { route_validator: RouteValidator::new() }
    }

    pub fn validate_announcement(
        &self,
        ann: &Announcement,
        recv_relationship: Relationships,
        as_obj: &AS,
        _route_validator: Option<&RouteValidator>,
    ) -> (r: bool)
        requires
            self.route_validator.wf(),
            ann@.prefix.wf(),
        ensures
            r == spec_rov_validate(self.route_validator@, ann@, recv_relationship, as_obj@.asn),
    {
        if !default_validate(ann, recv_relationship, as_obj) {
            return false;
        }
        let origin = ann.origin();
        let (validity, _) = self.route_validator.get_roa_outcome(&ann.prefix, origin);
        match validity {
            ROAValidity::Valid => true,
            ROAValidity::Unknown => true,
            _ => false,
        }
    }

    pub fn process_announcement(
        &self,
        ann: &mut Announcement,
        _recv_relationship: Relationships,
        _as_obj: &AS,
    ) -> (r: ProcessingResult)
        ensures
            final(ann)@ == old(ann)@,
            r == spec_rovpp_process(old(ann)@).1,
    {
        match ann.rovpp_blackhole {
            Some(true) => ProcessingResult::Modified,
            _ => ProcessingResult::Accept,
        }
    }

    pub fn should_propagate(
        &self,
        ann: &Announcement,
        recv_relationship: Relationships,
        send_relationship: Relationships,
    ) -> (r: bool)
        ensures
            r == spec_rovpp_should_propagate(ann@, recv_relationship, send_relationship),
    {
        match ann.rovpp_blackhole {
            Some(true) => false,
            _ => default_should_propagate(recv_relationship, send_relationship),
        }
    }

    pub fn name(&self) -> (r: &'static str)
        ensures
            r@ == "ROVPPV1Lite"@,
    {
        "ROVPPV1Lite"
    }
}

/// Peerlock-Lite: a route learned from a customer must not carry any tier-1
/// AS on its path, which would mark a route leak.
#[derive(Debug, Clone)]
pub struct PeerlockLitePolicy {
    pub tier_1_asns: Vec<ASN>,
}

/// No hop of the path belongs to the tier-1 set.
pub open spec fn spec_no_tier1_on_path(t1: Seq<ASN>, path: Seq<ASN>) -> bool {
    forall|i: int| 0 <= i < path.len() ==> !t1.contains(#[trigger] path[i])
}

/// Peerlock-Lite validation: the standard checks, and a customer route must
/// not cross a tier-1 AS.
pub open spec fn spec_peerlock_lite_validate(
    t1: Seq<ASN>,
    a: AnnView,
    rel: Relationships,
    self_asn: ASN,
) -> bool {
    spec_default_validate(a, rel, self_asn) && (rel is Customers ==> spec_no_tier1_on_path(
        t1,
        a.as_path,
    ))
}

impl PeerlockLitePolicy {
    pub fn new() -> (r: PeerlockLitePolicy)
        ensures
            r.tier_1_asns@.len() == 0,
    {
        PeerlockLitePolicy { tier_1_asns: Vec::new() }
    }

    /// Learn the tier-1 ASes from the graph.
    pub fn setup(&mut self, as_graph: &ASGraph)
        requires
            as_graph.wf(),
        ensures
            forall|x: ASN|
                final(self).tier_1_asns@.contains(x) <==> (as_graph.as_dict@.contains_key(x) && (
                #[trigger] as_graph.as_dict@[x]).tier_1),
    {
        let mut t1: Vec<ASN> = Vec::new();
        let n = as_graph.as_dict.len();
        let mut i: usize = 0;
        while i < n
            invariant
                as_graph.wf(),
                n == as_graph.as_dict.pairs().len(),
                i <= n,
                forall|x: ASN|
                    #[trigger] t1@.contains(x) <==> ((exists|j: int|
                        0 <= j < i && (#[trigger] as_graph.as_dict.pairs()[j]).0 == x)
                        && as_graph.as_dict@.contains_key(x) && as_graph.as_dict@[x].tier_1),
            decreases n - i,
        {
            let asn = as_graph.as_dict.key_at(i);
            let node = as_graph.as_dict.value_at(i);
            proof {
                as_graph.as_dict.lemma_entry_in_view(i as int);
            }
            let ghost pre = t1@;
            if node.tier_1 {
                t1.push(asn);
            }
            proof {
                crate::vecs::lemma_push_contains(pre, asn);
                assert forall|x: ASN|
                    #[trigger] t1@.contains(x) <==> ((exists|j: int|
                        0 <= j < i + 1 && (#[trigger] as_graph.as_dict.pairs()[j]).0 == x)
                        && as_graph.as_dict@.contains_key(x) && as_graph.as_dict@[x].tier_1) by {
                    if t1@.contains(x) {
                        if pre.contains(x) {
                            let j = choose|j: int|
                                0 <= j < i && (#[trigger] as_graph.as_dict.pairs()[j]).0 == x;
                            assert(0 <= j < i + 1 && as_graph.as_dict.pairs()[j].0 == x);
                        } else {
                            assert(x == asn);
                            assert(as_graph.as_dict.pairs()[i as int].0 == x);
                        }
                    }
                    if (exists|j: int|
                        0 <= j < i + 1 && (#[trigger] as_graph.as_dict.pairs()[j]).0 == x)
                        && as_graph.as_dict@.contains_key(x) && as_graph.as_dict@[x].tier_1 {
                        let j = choose|j: int|
                            0 <= j < i + 1 && (#[trigger] as_graph.as_dict.pairs()[j]).0 == x;
                        if j < i {
                            assert(pre.contains(x));
                        } else {
                            assert(x == asn);
                        }
                    }
                }
            }
            i = i + 1;
        }
        proof {
            assert forall|x: ASN|
                as_graph.as_dict@.contains_key(x) && (#[trigger] as_graph.as_dict@[x]).tier_1 implies exists|
                j: int,
            |
                0 <= j < n && (#[trigger] as_graph.as_dict.pairs()[j]).0 == x by {
                as_graph.as_dict.lemma_view_in_entries(x);
            }
        }
        self.tier_1_asns = t1;
    }

    pub fn validate_announcement(
        &self,
        ann: &Announcement,
        recv_relationship: Relationships,
        as_obj: &AS,
        _route_validator: Option<&RouteValidator>,
    ) -> (r: bool)
        ensures
            r == spec_peerlock_lite_validate(
                self.tier_1_asns@,
                ann@,
                recv_relationship,
                as_obj@.asn,
            ),
    {
        if !default_validate(ann, recv_relationship, as_obj) {
            return false;
        }
        if matches!(recv_relationship, Relationships::Customers) {
            let mut i: usize = 0;
            while i < ann.as_path.len()
                invariant
                    recv_relationship is Customers,
                    spec_default_validate(ann@, recv_relationship, as_obj@.asn),
                    i <= ann.as_path@.len(),
                    forall|j: int|
                        0 <= j < i ==> !self.tier_1_asns@.contains(#[trigger] ann.as_path@[j]),
                decreases ann.as_path.len() - i,
            {
                if contains_asn(&self.tier_1_asns, ann.as_path[i]) {
                    proof {
                        assert(self.tier_1_asns@.contains(ann.as_path@[i as int]));
                        assert(!spec_no_tier1_on_path(self.tier_1_asns@, ann.as_path@));
                    }
                    return false;
                }
                i = i + 1;
            }
        }
        true
    }

    pub fn name(&self) -> (r: &'static str)
        ensures
            r@ == "PeerlockLite"@,
    {
        "PeerlockLite"
    }
}

/// AS-path edge filter: a reserved hook for an externally supplied set of
/// valid AS adjacencies; with no set supplied only the standard checks run.
#[derive(Debug, Clone, Copy, PartialEq, Eq, Structural)]
pub struct ASPathEdgeFilterPolicy;

impl ASPathEdgeFilterPolicy {
    pub fn validate_announcement(
        &self,
        ann: &Announcement,
        recv_relationship: Relationships,
        as_obj: &AS,
        _route_validator: Option<&RouteValidator>,
    ) -> (r: bool)
        ensures
            r == spec_default_validate(ann@, recv_relationship, as_obj@.asn),
    {
        default_validate(ann, recv_relationship, as_obj)
    }

    pub fn name(&self) -> (r: &'static str)
        ensures
            r@ == "ASPathEdgeFilter"@,
    {
        "ASPathEdgeFilter"
    }
}

/// The policy an AS runs, dispatched over a closed set of variants.
#[derive(Debug)]
pub enum PolicyExtension {
    Bgp(BGPPolicy),
    Rov(ROVPolicy),
    PeerRov(PeerROVPolicy),
    OnlyToCustomers(OnlyToCustomersPolicy),
    PathEnd(PathEndPolicy),
    EnforceFirstAs(EnforceFirstASPolicy),
    Aspa(ASPAPolicy),
    Bgpsec(BGPSecPolicy),
    RovppV1Lite(ROVPPV1LitePolicy),
    PeerlockLite(PeerlockLitePolicy),
    EdgeFilter(ASPathEdgeFilterPolicy),
}

/// The internal state the extension needs to be usable.
pub open spec fn spec_ext_wf(ext: &PolicyExtension) -> bool {
    match ext {
        PolicyExtension::Rov(p) => p.route_validator.wf(),
        PolicyExtension::PeerRov(p) => p.route_validator.wf(),
        PolicyExtension::RovppV1Lite(p) => p.route_validator.wf(),
        _ => true,
    }
}

/// What the extension's validation accepts.
pub open spec fn spec_ext_validate(
    ext: &PolicyExtension,
    a: AnnView,
    rel: Relationships,
    asv: ASView,
) -> bool {
    match ext {
        PolicyExtension::Bgp(_) => spec_default_validate(a, rel, asv.asn),
        PolicyExtension::Rov(p) => spec_rov_validate(p.route_validator@, a, rel, asv.asn),
        PolicyExtension::PeerRov(p) => spec_peer_rov_validate(p.route_validator@, a, rel, asv.asn),
        PolicyExtension::OnlyToCustomers(_) => spec_default_validate(a, rel, asv.asn),
        PolicyExtension::PathEnd(p) => spec_path_end_validate(p.legitimate_asns@, a, rel, asv.asn),
        PolicyExtension::EnforceFirstAs(_) => spec_enforce_first_as_validate(a, rel, asv),
        PolicyExtension::Aspa(_) => spec_aspa_validate(a, rel, asv),
        PolicyExtension::Bgpsec(_) => spec_bgpsec_validate(a, rel, asv.asn),
        PolicyExtension::RovppV1Lite(p) => spec_rov_validate(
            p.route_validator@,
            a,
            rel,
            asv.asn,
        ),
        PolicyExtension::PeerlockLite(p) => spec_peerlock_lite_validate(
            p.tier_1_asns@,
            a,
            rel,
            asv.asn,
        ),
        PolicyExtension::EdgeFilter(_) => spec_default_validate(a, rel, asv.asn),
    }
}

/// What the extension's processing does to an announcement.
pub open spec fn spec_ext_process(
    ext: &PolicyExtension,
    a: AnnView,
    rel: Relationships,
    self_asn: ASN,
) -> (AnnView, ProcessingResult) {
    match ext {
        PolicyExtension::OnlyToCustomers(_) => spec_otc_process(a, rel),
        PolicyExtension::Bgpsec(_) => spec_bgpsec_process(a, self_asn),
        PolicyExtension::RovppV1Lite(_) => spec_rovpp_process(a),
        _ => (a, ProcessingResult::Accept),
    }
}

/// Whether the extension exports an announcement over one relationship.
pub open spec fn spec_ext_should_propagate(
    ext: &PolicyExtension,
    a: AnnView,
    recv: Relationships,
    send: Relationships,
) -> bool {
    match ext {
        PolicyExtension::OnlyToCustomers(_) => spec_otc_should_propagate(a, recv, send),
        PolicyExtension::RovppV1Lite(_) => spec_rovpp_should_propagate(a, recv, send),
        _ => spec_default_should_propagate(recv, send),
    }
}

/// How the extension orders two candidate routes.
pub open spec fn spec_ext_compare(
    ext: &PolicyExtension,
    a1: AnnView,
    a2: AnnView,
    rel1: Relationships,
    rel2: Relationships,
) -> Ordering {
    match ext {
        PolicyExtension::Bgpsec(_) => spec_bgpsec_compare(a1, a2, rel1, rel2),
        _ => spec_default_compare(a1, a2, rel1, rel2),
    }
}

/// The display name of each policy variant.
pub open spec fn spec_ext_name(ext: &PolicyExtension) -> Seq<char> {
    match ext {
        PolicyExtension::Bgp(_) => "BGP"@,
        PolicyExtension::Rov(_) => "ROV"@,
        PolicyExtension::PeerRov(_) => "PeerROV"@,
        PolicyExtension::OnlyToCustomers(_) => "OnlyToCustomers"@,
        PolicyExtension::PathEnd(_) => "PathEnd"@,
        PolicyExtension::EnforceFirstAs(_) => "EnforceFirstAS"@,
        PolicyExtension::Aspa(_) => "ASPA"@,
        PolicyExtension::Bgpsec(_) => "BGPSec"@,
        PolicyExtension::RovppV1Lite(_) => "ROVPPV1Lite"@,
        PolicyExtension::PeerlockLite(_) => "PeerlockLite"@,
        PolicyExtension::EdgeFilter(_) => "ASPathEdgeFilter"@,
    }
}

impl PolicyExtension {
    /// Validate an incoming announcement under this policy.
    pub fn validate_announcement(
        &self,
        ann: &Announcement,
        recv_relationship: Relationships,
        as_obj: &AS,
        as_graph: &ASGraph,
    ) -> (r: bool)
        requires
            spec_ext_wf(self),
            ann@.prefix.wf(),
        ensures
            r == spec_ext_validate(self, ann@, recv_relationship, as_obj@),
    {
        match self {
            PolicyExtension::Bgp(p) => p.validate_announcement(
                ann,
                recv_relationship,
                as_obj,
                None,
            ),
            PolicyExtension::Rov(p) => p.validate_announcement(ann, recv_relationship, as_obj, None),
            PolicyExtension::PeerRov(p) => p.validate_announcement(
                ann,
                recv_relationship,
                as_obj,
                None,
            ),
            PolicyExtension::OnlyToCustomers(_) => default_validate(
                ann,
                recv_relationship,
                as_obj,
            ),
            PolicyExtension::PathEnd(p) => p.validate_announcement(
                ann,
                recv_relationship,
                as_obj,
                None,
            ),
            PolicyExtension::EnforceFirstAs(p) => p.validate_announcement(
                ann,
                recv_relationship,
                as_obj,
                None,
            ),
            PolicyExtension::Aspa(p) => p.validate_announcement(
                ann,
                recv_relationship,
                as_obj,
                as_graph,
            ),
            PolicyExtension::Bgpsec(p) => p.validate_announcement(
                ann,
                recv_relationship,
                as_obj,
                None,
            ),
            PolicyExtension::RovppV1Lite(p) => p.validate_announcement(
                ann,
                recv_relationship,
                as_obj,
                None,
            ),
            PolicyExtension::PeerlockLite(p) => p.validate_announcement(
                ann,
                recv_relationship,
                as_obj,
                None,
            ),
            PolicyExtension::EdgeFilter(p) => p.validate_announcement(
                ann,
                recv_relationship,
                as_obj,
                None,
            ),
        }
    }

    /// Process an announcement, possibly rewriting its policy fields.
    pub fn process_announcement(
        &self,
        ann: &mut Announcement,
        recv_relationship: Relationships,
        as_obj: &AS,
    ) -> (r: ProcessingResult)
        ensures
            final(ann)@ == spec_ext_process(self, old(ann)@, recv_relationship, as_obj@.asn).0,
            r == spec_ext_process(self, old(ann)@, recv_relationship, as_obj@.asn).1,
    {
        match self {
            PolicyExtension::OnlyToCustomers(p) => p.process_announcement(
                ann,
                recv_relationship,
                as_obj,
            ),
            PolicyExtension::Bgpsec(p) => p.process_announcement(ann, recv_relationship, as_obj),
            PolicyExtension::RovppV1Lite(p) => p.process_announcement(
                ann,
                recv_relationship,
                as_obj,
            ),
            _ => ProcessingResult::Accept,
        }
    }

    /// Whether an announcement is exported over one relationship kind.
    pub fn should_propagate(
        &self,
        ann: &Announcement,
        recv_relationship: Relationships,
        send_relationship: Relationships,
    ) -> (r: bool)
        ensures
            r == spec_ext_should_propagate(self, ann@, recv_relationship, send_relationship),
    {
        match self {
            PolicyExtension::OnlyToCustomers(p) => p.should_propagate(
                ann,
                recv_relationship,
                send_relationship,
            ),
            PolicyExtension::RovppV1Lite(p) => p.should_propagate(
                ann,
                recv_relationship,
                send_relationship,
            ),
            _ => default_should_propagate(recv_relationship, send_relationship),
        }
    }

    /// Order two candidate routes; `Less` means the first is preferred.
    pub fn compare_announcements(
        &self,
        ann1: &Announcement,
        ann2: &Announcement,
        rel1: Relationships,
        rel2: Relationships,
        as_obj: &AS,
    ) -> (r: Ordering)
        ensures
            r == spec_ext_compare(self, ann1@, ann2@, rel1, rel2),
    {
        match self {
            PolicyExtension::Bgpsec(p) => p.compare_announcements(ann1, ann2, rel1, rel2, as_obj),
            _ => default_compare(ann1, ann2, rel1, rel2),
        }
    }

    /// Learn policy state from the finished graph; only Peerlock-Lite keeps
    /// any.
    pub fn setup(&mut self, _as_obj: &AS, as_graph: &ASGraph)
        requires
            as_graph.wf(),
        ensures
            match *final(self) {
                PolicyExtension::PeerlockLite(p) => *old(self) is PeerlockLite && (forall|x: ASN|
                    p.tier_1_asns@.contains(x) <==> (as_graph.as_dict@.contains_key(x) && (
                    #[trigger] as_graph.as_dict@[x]).tier_1)),
                _ => *final(self) == *old(self),
            },
    {
        match self {
            PolicyExtension::PeerlockLite(p) => {
                p.setup(as_graph);
            },
            _ => {},
        }
    }

    /// The policy's display name.
    pub fn name(&self) -> (r: &'static str)
        ensures
            r@ == spec_ext_name(self),
    {
        match self {
            PolicyExtension::Bgp(p) => p.name(),
            PolicyExtension::Rov(p) => p.name(),
            PolicyExtension::PeerRov(p) => p.name(),
            PolicyExtension::OnlyToCustomers(p) => p.name(),
            PolicyExtension::PathEnd(p) => p.name(),
            PolicyExtension::EnforceFirstAs(p) => p.name(),
            PolicyExtension::Aspa(p) => p.name(),
            PolicyExtension::Bgpsec(p) => p.name(),
            PolicyExtension::RovppV1Lite(p) => p.name(),
            PolicyExtension::PeerlockLite(p) => p.name(),
            PolicyExtension::EdgeFilter(p) => p.name(),
        }
    }
}

/// The extension a settings tag selects; tags without an implemented policy
/// fall back to plain BGP.
pub fn create_policy_extension(settings: Settings) -> (r: PolicyExtension)
    ensures
        spec_ext_wf(&r),
        settings is BaseDefense ==> r is Bgp,
        settings is Rov ==> r is Rov,
        settings is PeerRov ==> r is PeerRov,
        settings is OnlyToCustomers ==> r is OnlyToCustomers,
        settings is PathEnd ==> r is PathEnd,
        settings is EnforceFirstAs ==> r is EnforceFirstAs,
        settings is Aspa ==> r is Aspa,
        settings is Bgpsec ==> r is Bgpsec,
        settings is RovppV1Lite ==> r is RovppV1Lite,
        settings is PeerLockLite ==> r is PeerlockLite,
        settings is EdgeFilter ==> r is EdgeFilter,
        match settings {
            Settings::BaseDefense | Settings::Rov | Settings::PeerRov | Settings::OnlyToCustomers
                | Settings::PathEnd | Settings::EnforceFirstAs | Settings::Aspa | Settings::Bgpsec
                | Settings::RovppV1Lite | Settings::PeerLockLite | Settings::EdgeFilter => true,
            _ => r is Bgp,
        },
        match r {
            PolicyExtension::Rov(p) => p.route_validator@.len() == 0,
            PolicyExtension::PeerRov(p) => p.route_validator@.len() == 0,
            PolicyExtension::RovppV1Lite(p) => p.route_validator@.len() == 0,
            PolicyExtension::PathEnd(p) => p.legitimate_asns@.len() == 0,
            PolicyExtension::PeerlockLite(p) => p.tier_1_asns@.len() == 0,
            _ => true,
        },
{
    match settings {
        Settings::BaseDefense => PolicyExtension::Bgp(BGPPolicy),
        Settings::Rov => PolicyExtension::Rov(ROVPolicy::new()),
        Settings::PeerRov => PolicyExtension::PeerRov(PeerROVPolicy::new()),
        Settings::OnlyToCustomers => PolicyExtension::OnlyToCustomers(OnlyToCustomersPolicy),
        Settings::PathEnd => PolicyExtension::PathEnd(PathEndPolicy::new()),
        Settings::EnforceFirstAs => PolicyExtension::EnforceFirstAs(EnforceFirstASPolicy),
        Settings::Aspa => PolicyExtension::Aspa(ASPAPolicy),
        Settings::Bgpsec => PolicyExtension::Bgpsec(BGPSecPolicy),
        Settings::RovppV1Lite => PolicyExtension::RovppV1Lite(ROVPPV1LitePolicy::new()),
        Settings::PeerLockLite => PolicyExtension::PeerlockLite(PeerlockLitePolicy::new()),
        Settings::EdgeFilter => PolicyExtension::EdgeFilter(ASPathEdgeFilterPolicy),
        _ => PolicyExtension::Bgp(BGPPolicy),
    }
}

/// Gao-Rexford export safety: no policy in the set ever exports a route
/// learned from a peer or a provider to a peer or a provider.
pub proof fn lemma_gao_rexford_export(
    ext: &PolicyExtension,
    a: AnnView,
    recv: Relationships,
    send: Relationships,
)
    requires
        recv is Peers || recv is Providers,
        send is Peers || send is Providers,
    ensures
        !spec_ext_should_propagate(ext, a, recv, send),
{
}

} // verus!
