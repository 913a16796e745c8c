//! Route advertisements and their mathematical view.

use vstd::prelude::*;

use crate::prefix::Prefix;
use crate::shared::{Relationships, Timestamps};

verus! {

/// An autonomous-system number.
pub type ASN = u32;

/// Ghost view of an announcement: the same record with sequences in place of
/// vectors.
#[verifier::ext_equal]
pub ghost struct AnnView {
    pub prefix: Prefix,
    pub as_path: Seq<ASN>,
    pub next_hop_asn: ASN,
    pub recv_relationship: Relationships,
    pub timestamp: Timestamps,
    pub withdraw: bool,
    pub bgpsec_next_asn: Option<ASN>,
    pub bgpsec_as_path: Option<Seq<ASN>>,
    pub only_to_customers: Option<bool>,
    pub rovpp_blackhole: Option<bool>,
    pub rost_ids: Option<Seq<u32>>,
}

impl AnnView {
    /// The origin of an announcement: the last ASN of its path, or its next
    /// hop when the path is empty.
    pub open spec fn spec_origin(self) -> ASN {
        if self.as_path.len() == 0 {
            self.next_hop_asn
        } else {
            self.as_path.last()
        }
    }

    /// The announcement a neighbor receives when this one is passed on:
    /// non-withdrawals get the sender prepended to the path (and to the
    /// BGPSec path if any); the next hop, receive relationship and BGPSec
    /// next-ASN fields are refreshed.
    pub open spec fn spec_copy_and_process(self, next_hop_asn: ASN, rel: Relationships) -> AnnView {
        AnnView {
            as_path: if self.withdraw {
                self.as_path
            } else {
                seq![next_hop_asn] + self.as_path
            },
            bgpsec_as_path: if self.withdraw {
                self.bgpsec_as_path
            } else {
                match self.bgpsec_as_path {
                    Some(p) => Some(seq![next_hop_asn] + p),
                    None => None,
                }
            },
            next_hop_asn,
            recv_relationship: rel,
            bgpsec_next_asn: Some(next_hop_asn),
            ..self
        }
    }
}

/// A route advertisement: a prefix, the AS path that carried it (most recent
/// hop first, origin last), and policy-specific optional fields.
#[derive(Debug, Clone)]
pub struct Announcement {
    pub prefix: Prefix,
    pub as_path: Vec<ASN>,
    pub next_hop_asn: ASN,
    pub recv_relationship: Relationships,
    pub timestamp: Timestamps,
    pub withdraw: bool,
    pub bgpsec_next_asn: Option<ASN>,
    pub bgpsec_as_path: Option<Vec<ASN>>,
    pub only_to_customers: Option<bool>,
    pub rovpp_blackhole: Option<bool>,
    pub rost_ids: Option<Vec<u32>>,
}

impl View for Announcement {
    type V = AnnView;

    open spec fn view(&self) -> AnnView {
        AnnView {
            prefix: self.prefix,
            as_path: self.as_path@,
            next_hop_asn: self.next_hop_asn,
            recv_relationship: self.recv_relationship,
            timestamp: self.timestamp,
            withdraw: self.withdraw,
            bgpsec_next_asn: self.bgpsec_next_asn,
            bgpsec_as_path: match self.bgpsec_as_path {
                Some(ref p) => Some(p@),
                None => None,
            },
            only_to_customers: self.only_to_customers,
            rovpp_blackhole: self.rovpp_blackhole,
            rost_ids: match self.rost_ids {
                Some(ref r) => Some(r@),
                None => None,
            },
        }
    }
}

impl Announcement {
    /// A fresh announcement with an empty AS path and no optional fields.
    pub fn new(prefix: Prefix, next_hop_asn: ASN, recv_relationship: Relationships) -> (r:
        Announcement)
        ensures
            r@ == (AnnView {
                prefix,
                as_path: Seq::<ASN>::empty(),
                next_hop_asn,
                recv_relationship,
                timestamp: Timestamps::Victim,
                withdraw: false,
                bgpsec_next_asn: None,
                bgpsec_as_path: None,
                only_to_customers: None,
                rovpp_blackhole: None,
                rost_ids: None,
            }),
    {
        let r = Announcement {
            prefix,
            as_path: Vec::new(),
            next_hop_asn,
            recv_relationship,
            timestamp: Timestamps::Victim,
            withdraw: false,
            bgpsec_next_asn: None,
            bgpsec_as_path: None,
            only_to_customers: None,
            rovpp_blackhole: None,
            rost_ids: None,
        };
        proof {
            assert(r@.as_path =~= Seq::<ASN>::empty());
            assert(r@ =~= AnnView {
                prefix,
                as_path: Seq::<ASN>::empty(),
                next_hop_asn,
                recv_relationship,
                timestamp: Timestamps::Victim,
                withdraw: false,
                bgpsec_next_asn: None,
                bgpsec_as_path: None,
                only_to_customers: None,
                rovpp_blackhole: None,
                rost_ids: None,
            });
        }
        r
    }

    /// A fresh announcement with a given AS path and timestamp.
    pub fn new_with_path(
        prefix: Prefix,
        as_path: Vec<ASN>,
        next_hop_asn: ASN,
        recv_relationship: Relationships,
        timestamp: Timestamps,
    ) -> (r: Announcement)
        ensures
            r@ == (AnnView {
                prefix,
                as_path: as_path@,
                next_hop_asn,
                recv_relationship,
                timestamp,
                withdraw: false,
                bgpsec_next_asn: None,
                bgpsec_as_path: None,
                only_to_customers: None,
                rovpp_blackhole: None,
                rost_ids: None,
            }),
    {
        let ghost path_view = as_path@;
        let r = Announcement {
            prefix,
            as_path,
            next_hop_asn,
            recv_relationship,
            timestamp,
            withdraw: false,
            bgpsec_next_asn: None,
            bgpsec_as_path: None,
            only_to_customers: None,
            rovpp_blackhole: None,
            rost_ids: None,
        };
        proof {
            assert(r@ =~= AnnView {
                prefix,
                as_path: path_view,
                next_hop_asn,
                recv_relationship,
                timestamp,
                withdraw: false,
                bgpsec_next_asn: None,
                bgpsec_as_path: None,
                only_to_customers: None,
                rovpp_blackhole: None,
                rost_ids: None,
            });
        }
        r
    }

    /// The origin ASN of this announcement.
    pub fn origin(&self) -> (r: ASN)
        ensures
            r == self@.spec_origin(),
    {
        if self.as_path.len() == 0 {
            self.next_hop_asn
        } else {
            self.as_path[self.as_path.len() - 1]
        }
    }

    /// An identical copy.
    pub fn copy(&self) -> (r: Announcement)
        ensures
            r@ == self@,
    {
        self.clone_ann()
    }

    /// An identical copy (clone with a contract).
    pub fn clone_ann(&self) -> (r: Announcement)
        ensures
            r@ == self@,
    {
        let r = Announcement {
            prefix: self.prefix,
            as_path: clone_asn_vec(&self.as_path),
            next_hop_asn: self.next_hop_asn,
            recv_relationship: self.recv_relationship,
            timestamp: self.timestamp,
            withdraw: self.withdraw,
            bgpsec_next_asn: self.bgpsec_next_asn,
            bgpsec_as_path: match self.bgpsec_as_path {
                Some(ref p) => Some(clone_asn_vec(p)),
                None => None,
            },
            only_to_customers: self.only_to_customers,
            rovpp_blackhole: self.rovpp_blackhole,
            rost_ids: match self.rost_ids {
                Some(ref r) => Some(clone_asn_vec(r)),
                None => None,
            },
        };
        proof {
            assert(r@ =~= self@);
        }
        r
    }

    /// The copy of this announcement handed to a neighbor.
    pub fn copy_and_process(&self, next_hop_asn: ASN, recv_relationship: Relationships) -> (r:
        Announcement)
        ensures
            r@ == self@.spec_copy_and_process(next_hop_asn, recv_relationship),
    {
        let mut new_ann = self.clone_ann();
        if !new_ann.withdraw {
            new_ann.as_path.insert(0, next_hop_asn);
            match new_ann.bgpsec_as_path {
                Some(ref mut bgpsec_path) => {
                    bgpsec_path.insert(0, next_hop_asn);
                },
                None => {},
            }
        }
        new_ann.next_hop_asn = next_hop_asn;
        new_ann.recv_relationship = recv_relationship;
        new_ann.bgpsec_next_asn = Some(next_hop_asn);
        proof {
            assert(new_ann@.as_path =~= self@.spec_copy_and_process(
                next_hop_asn,
                recv_relationship,
            ).as_path);
            if self@.withdraw {
                assert(new_ann@ =~= self@.spec_copy_and_process(next_hop_asn, recv_relationship));
            } else {
                match self@.bgpsec_as_path {
                    Some(p) => {
                        assert(new_ann@.bgpsec_as_path.unwrap() =~= seq![next_hop_asn] + p);
                    },
                    None => {},
                }
                assert(new_ann@ =~= self@.spec_copy_and_process(next_hop_asn, recv_relationship));
            }
        }
        new_ann
    }
}

/// Copy of a vector of plain numbers.
pub fn clone_asn_vec(v: &Vec<u32>) -> (r: Vec<u32>)
    ensures
        r@ == v@,
{
    let mut r: Vec<u32> = Vec::new();
    let mut i: usize = 0;
    while i < v.len()
        invariant
            i <= v.len(),
            r@ =~= v@.take(i as int),
        decreases v.len() - i,
    {
        r.push(v[i]);
        i = i + 1;
    }
    proof {
        assert(r@ =~= v@);
    }
    r
}

/// An announcement queued for processing together with the relationship it
/// was received over.
#[derive(Debug, Clone)]
pub struct AnnInfo {
    pub ann: Announcement,
    pub recv_relationship: Relationships,
}

impl AnnInfo {
    pub fn new(ann: Announcement, recv_relationship: Relationships) -> (r: AnnInfo)
        ensures
            r.ann@ == ann@,
            r.recv_relationship == recv_relationship,
    {
        AnnInfo { ann, recv_relationship }
    }
}

} // verus!
