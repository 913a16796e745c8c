//! Per-AS policy state: local RIB, RIBs-in/out, receive queue, and the
//! processing that turns received announcements into routes and exports.

use core::cmp::Ordering;
use vstd::prelude::*;

use crate::amap::AssocMap;
use crate::announcement::{AnnInfo, AnnView, Announcement, ASN};
use crate::as_graph::{ASGraph, ASView, AS};
use crate::policy_extensions::{
    create_policy_extension, spec_ext_compare, spec_ext_should_propagate, spec_ext_validate,
    spec_ext_wf, PolicyExtension,
};
use crate::prefix::Prefix;
use crate::shared::{Relationships, Settings};

verus! {

/// A table of best or received routes, one per prefix.
pub type Rib = AssocMap<Prefix, Announcement>;

/// Per-neighbor route tables.
pub type NeighborRibs = AssocMap<ASN, Rib>;

/// The relationship under which an AS knows a neighbor, customers checked
/// first as in route selection.
pub open spec fn spec_get_relationship(asv: ASView, n: ASN) -> Relationships {
    if asv.customers.contains(n) {
        Relationships::Customers
    } else if asv.peers.contains(n) {
        Relationships::Peers
    } else if asv.providers.contains(n) {
        Relationships::Providers
    } else {
        Relationships::Unknown
    }
}

/// A non-withdrawn announcement held in some RIBs-in table for a prefix.
pub open spec fn spec_is_candidate(
    ribs_in: Map<ASN, Map<Prefix, AnnView>>,
    prefix: Prefix,
    a: AnnView,
) -> bool {
    exists|nh: ASN|
        #[trigger] ribs_in.contains_key(nh) && ribs_in[nh].contains_key(prefix) && ribs_in[nh][prefix]
            == a && !a.withdraw
}

/// The best route for a prefix: a candidate that the policy's order prefers
/// to every other candidate.
pub open spec fn spec_is_best(
    ext: &PolicyExtension,
    ribs_in: Map<ASN, Map<Prefix, AnnView>>,
    prefix: Prefix,
    asv: ASView,
    b: AnnView,
) -> bool {
    &&& spec_is_candidate(ribs_in, prefix, b)
    &&& forall|c: AnnView|
        spec_is_candidate(ribs_in, prefix, c) && c != b ==> #[trigger] spec_ext_compare(
            ext,
            b,
            c,
            spec_get_relationship(asv, b.next_hop_asn),
            spec_get_relationship(asv, c.next_hop_asn),
        ) is Less
}

/// Every announcement in a RIBs-in table sits under its next hop, under its
/// own prefix, and carries no loop through the owning AS.
pub open spec fn spec_ribs_in_ok(ribs_in: Map<ASN, Map<Prefix, AnnView>>, asn: ASN) -> bool {
    forall|nh: ASN, p: Prefix|
        #[trigger] ribs_in.contains_key(nh) && #[trigger] ribs_in[nh].contains_key(p) ==> {
            &&& ribs_in[nh][p].next_hop_asn == nh
            &&& ribs_in[nh][p].prefix == p
            &&& ribs_in[nh][p].prefix.wf()
            &&& !ribs_in[nh][p].as_path.contains(asn)
        }
}

/// Every best route in a local RIB starts with the owning AS and does not
/// revisit it: the loop-freedom invariant of stored routes.
pub open spec fn spec_local_rib_ok(local_rib: Map<Prefix, AnnView>, asn: ASN) -> bool {
    forall|p: Prefix|
        #[trigger] local_rib.contains_key(p) ==> {
            &&& local_rib[p].as_path.len() > 0
            &&& local_rib[p].as_path[0] == asn
            &&& !local_rib[p].as_path.skip(1).contains(asn)
            &&& local_rib[p].prefix == p
            &&& local_rib[p].prefix.wf()
        }
}

/// The policy's order never calls two routes with different next hops equal:
/// of two such routes one is strictly preferred.
pub proof fn lemma_compare_connex(
    ext: &PolicyExtension,
    a1: AnnView,
    a2: AnnView,
    rel1: Relationships,
    rel2: Relationships,
)
    requires
        a1.next_hop_asn != a2.next_hop_asn,
    ensures
        spec_ext_compare(ext, a1, a2, rel1, rel2) is Less <==> !(spec_ext_compare(
            ext,
            a2,
            a1,
            rel2,
            rel1,
        ) is Less),
{
}

/// The policy's order is transitive on strict preference.
pub proof fn lemma_compare_transitive(
    ext: &PolicyExtension,
    a1: AnnView,
    a2: AnnView,
    a3: AnnView,
    rel1: Relationships,
    rel2: Relationships,
    rel3: Relationships,
)
    requires
        spec_ext_compare(ext, a1, a2, rel1, rel2) is Less,
        spec_ext_compare(ext, a2, a3, rel2, rel3) is Less,
    ensures
        spec_ext_compare(ext, a1, a3, rel1, rel3) is Less,
{
}

/// At most one candidate is best for a prefix.
pub proof fn lemma_best_unique(
    ext: &PolicyExtension,
    ribs_in: Map<ASN, Map<Prefix, AnnView>>,
    prefix: Prefix,
    asv: ASView,
    b1: AnnView,
    b2: AnnView,
)
    requires
        spec_is_best(ext, ribs_in, prefix, asv, b1),
        spec_is_best(ext, ribs_in, prefix, asv, b2),
    ensures
        b1 == b2,
{
    if b1 != b2 {
        let r1 = spec_get_relationship(asv, b1.next_hop_asn);
        let r2 = spec_get_relationship(asv, b2.next_hop_asn);
        assert(spec_ext_compare(ext, b1, b2, r1, r2) is Less);
        assert(spec_ext_compare(ext, b2, b1, r2, r1) is Less);
    }
}

/// The per-AS policy: route tables, the receive queue, and the extension
/// that decides validation, selection and export.
#[derive(Debug)]
pub struct Policy {
    pub local_rib: Rib,
    pub recv_q: Vec<AnnInfo>,
    pub ribs_in: NeighborRibs,
    pub ribs_out: NeighborRibs,
    pub settings: Settings,
    pub asn: ASN,
    pub extension: PolicyExtension,
}

impl Policy {
    /// Structural well-formedness of the route tables and queue.
    pub open spec fn wf(&self) -> bool {
        &&& self.local_rib.wf()
        &&& self.ribs_in.wf()
        &&& forall|i: int|
            0 <= i < self.ribs_in.pairs().len() ==> (#[trigger] self.ribs_in.pairs()[i]).1.wf()
        &&& self.ribs_out.wf()
        &&& forall|i: int|
            0 <= i < self.ribs_out.pairs().len() ==> (#[trigger] self.ribs_out.pairs()[i]).1.wf()
        &&& spec_ext_wf(&self.extension)
        &&& forall|i: int|
            0 <= i < self.recv_q@.len() ==> (#[trigger] self.recv_q@[i]).ann@.prefix.wf()
    }

    /// A policy running plain BGP.
    pub fn new(asn: ASN) -> (r: Policy)
        ensures
            r.wf(),
            r.asn == asn,
            r.settings is BaseDefense,
            r.extension is Bgp,
            r.local_rib@ =~= Map::<Prefix, AnnView>::empty(),
            r.ribs_in@ =~= Map::<ASN, Map<Prefix, AnnView>>::empty(),
            r.ribs_out@ =~= Map::<ASN, Map<Prefix, AnnView>>::empty(),
            r.recv_q@.len() == 0,
    {
        Policy {
            local_rib: AssocMap::new(),
            recv_q: Vec::new(),
            ribs_in: AssocMap::new(),
            ribs_out: AssocMap::new(),
            settings: Settings::BaseDefense,
            asn,
            extension: create_policy_extension(Settings::BaseDefense),
        }
    }

    /// A policy running the extension a settings tag selects.
    pub fn with_settings(asn: ASN, settings: Settings) -> (r: Policy)
        ensures
            r.wf(),
            r.asn == asn,
            r.settings == settings,
            r.local_rib@ =~= Map::<Prefix, AnnView>::empty(),
            r.ribs_in@ =~= Map::<ASN, Map<Prefix, AnnView>>::empty(),
            r.ribs_out@ =~= Map::<ASN, Map<Prefix, AnnView>>::empty(),
            r.recv_q@.len() == 0,
    {
        Policy {
            local_rib: AssocMap::new(),
            recv_q: Vec::new(),
            ribs_in: AssocMap::new(),
            ribs_out: AssocMap::new(),
            settings,
            asn,
            extension: create_policy_extension(settings),
        }
    }

    /// Queue an announcement for the next processing pass.
    pub fn receive_ann(&mut self, ann: Announcement, recv_relationship: Relationships)
        requires
            old(self).wf(),
            ann@.prefix.wf(),
        ensures
            final(self).wf(),
            final(self).recv_q@.len() == old(self).recv_q@.len() + 1,
            forall|i: int|
                0 <= i < old(self).recv_q@.len() ==> final(self).recv_q@[i] == old(self).recv_q@[i],
            final(self).recv_q@.last().ann@ == ann@,
            final(self).recv_q@.last().recv_relationship == recv_relationship,
            final(self).local_rib == old(self).local_rib,
            final(self).ribs_in == old(self).ribs_in,
            final(self).ribs_out == old(self).ribs_out,
            final(self).asn == old(self).asn,
            final(self).settings == old(self).settings,
            final(self).extension == old(self).extension,
    {
        self.recv_q.push(AnnInfo { ann, recv_relationship });
    }

    /// The relationship under which this AS knows a neighbor ASN.
    pub fn get_relationship(&self, neighbor_asn: &ASN, as_obj: &AS) -> (r: Relationships)
        ensures
            r == spec_get_relationship(as_obj@, *neighbor_asn),
    {
        if crate::vecs::contains_asn(&as_obj.customers, *neighbor_asn) {
            Relationships::Customers
        } else if crate::vecs::contains_asn(&as_obj.peers, *neighbor_asn) {
            Relationships::Peers
        } else if crate::vecs::contains_asn(&as_obj.providers, *neighbor_asn) {
            Relationships::Providers
        } else {
            Relationships::Unknown
        }
    }

    /// Whether an announcement passes this policy's validation.
    pub fn valid_ann(
        &self,
        ann: &Announcement,
        recv_relationship: Relationships,
        as_obj: &AS,
        as_graph: &ASGraph,
    ) -> (r: bool)
        requires
            self.wf(),
            ann@.prefix.wf(),
        ensures
            r == spec_ext_validate(&self.extension, ann@, recv_relationship, as_obj@),
    {
        self.extension.validate_announcement(ann, recv_relationship, as_obj, as_graph)
    }

    /// The OTC gate applied before any export: a marked route learned from a
    /// peer or a provider is not re-exported.
    pub fn should_propagate(&self, ann: &Announcement, recv_relationship: Relationships) -> (r:
        bool)
        ensures
            r == (ann@.only_to_customers != Some(true) || recv_relationship is Customers
                || recv_relationship is Origin),
    {
        let marked = match ann.only_to_customers {
            Some(true) => true,
            _ => false,
        };
        !marked || matches!(recv_relationship, Relationships::Customers) || matches!(
            recv_relationship,
            Relationships::Origin,
        )
    }

    /// Whether the extension exports an announcement to one neighbor kind.
    pub fn should_propagate_to_rel(&self, ann: &Announcement, rel: Relationships) -> (r: bool)
        ensures
            r == spec_ext_should_propagate(&self.extension, ann@, ann@.recv_relationship, rel),
    {
        self.extension.should_propagate(ann, ann.recv_relationship, rel)
    }

    /// The best route for a prefix among the non-withdrawn RIBs-in entries,
    /// under the extension's order; None when no neighbor offers one.
    pub fn get_best_ann_for_prefix(&self, prefix: &Prefix, as_obj: &AS) -> (r: Option<Announcement>)
        requires
            self.wf(),
            spec_ribs_in_ok(self.ribs_in@, self.asn),
        ensures
            match r {
                Some(b) => spec_is_best(&self.extension, self.ribs_in@, *prefix, as_obj@, b@),
                None => forall|c: AnnView| !spec_is_candidate(self.ribs_in@, *prefix, c),
            },
    {
        let mut best: Option<Announcement> = None;
        let n = self.ribs_in.len();
        let mut i: usize = 0;
        while i < n
            invariant
                self.wf(),
                spec_ribs_in_ok(self.ribs_in@, self.asn),
                n == self.ribs_in.pairs().len(),
                i <= n,
                match best {
                    Some(b) => {
                        &&& spec_is_candidate(self.ribs_in@, *prefix, b@)
                        &&& forall|j: int|
                            0 <= j < i && (#[trigger] self.ribs_in.pairs()[j]).1@.contains_key(
                                *prefix,
                            ) && !self.ribs_in.pairs()[j].1@[*prefix].withdraw ==> {
                                let c = self.ribs_in.pairs()[j].1@[*prefix];
                                c == b@ || spec_ext_compare(
                                    &self.extension,
                                    b@,
                                    c,
                                    spec_get_relationship(as_obj@, b@.next_hop_asn),
                                    spec_get_relationship(as_obj@, c.next_hop_asn),
                                ) is Less
                            }
                    },
                    None => forall|j: int|
                        0 <= j < i ==> !((#[trigger] self.ribs_in.pairs()[j]).1@.contains_key(
                            *prefix,
                        ) && !self.ribs_in.pairs()[j].1@[*prefix].withdraw),
                },
            decreases n - i,
        {
            let inner = self.ribs_in.value_at(i);
            proof {
                self.ribs_in.lemma_entry_in_view(i as int);
            }
            match inner.get(prefix) {
                Some(ann) => {
                    if !ann.withdraw {
                        proof {
                            assert(self.ribs_in@.contains_key(self.ribs_in.pairs()[i as int].0));
                            assert(spec_is_candidate(self.ribs_in@, *prefix, ann@));
                        }
                        match best {
                            None => {
                                best = Some(ann.clone_ann());
                            },
                            Some(ref b) => {
                                let rel_c = self.get_relationship(&ann.next_hop_asn, as_obj);
                                let rel_b = self.get_relationship(&b.next_hop_asn, as_obj);
                                let ord = self.extension.compare_announcements(
                                    ann,
                                    b,
                                    rel_c,
                                    rel_b,
                                    as_obj,
                                );
                                if matches!(ord, Ordering::Less) {
                                    proof {
                                        lemma_candidates_distinct_next_hops(
                                            self,
                                            *prefix,
                                            i as int,
                                        );
                                        assert forall|j: int|
                                            0 <= j < i + 1 && (
                                            #[trigger] self.ribs_in.pairs()[j]).1@.contains_key(
                                                *prefix,
                                            ) && !self.ribs_in.pairs()[j].1@[*prefix].withdraw implies {
                                            let c = self.ribs_in.pairs()[j].1@[*prefix];
                                            c == ann@ || spec_ext_compare(
                                                &self.extension,
                                                ann@,
                                                c,
                                                spec_get_relationship(as_obj@, ann@.next_hop_asn),
                                                spec_get_relationship(as_obj@, c.next_hop_asn),
                                            ) is Less
                                        } by {
                                            let c = self.ribs_in.pairs()[j].1@[*prefix];
                                            if j < i && c != ann@ {
                                                if c == b@ {
                                                } else {
                                                    lemma_compare_transitive(
                                                        &self.extension,
                                                        ann@,
                                                        b@,
                                                        c,
                                                        spec_get_relationship(
                                                            as_obj@,
                                                            ann@.next_hop_asn,
                                                        ),
                                                        spec_get_relationship(
                                                            as_obj@,
                                                            b@.next_hop_asn,
                                                        ),
                                                        spec_get_relationship(
                                                            as_obj@,
                                                            c.next_hop_asn,
                                                        ),
                                                    );
                                                }
                                            }
                                        }
                                    }
                                    best = Some(ann.clone_ann());
                                } else {
                                    proof {
                                        lemma_candidates_distinct_next_hops(
                                            self,
                                            *prefix,
                                            i as int,
                                        );
                                        if ann@ != b@ {
                                            lemma_compare_connex(
                                                &self.extension,
                                                ann@,
                                                b@,
                                                spec_get_relationship(as_obj@, ann@.next_hop_asn),
                                                spec_get_relationship(as_obj@, b@.next_hop_asn),
                                            );
                                        }
                                    }
                                }
                            },
                        }
                    }
                },
                None => {},
            }
            i = i + 1;
        }
        proof {
            match best {
                Some(ref b) => {
                    assert forall|c: AnnView|
                        spec_is_candidate(self.ribs_in@, *prefix, c) && c != b@ implies #[trigger] spec_ext_compare(
                        &self.extension,
                        b@,
                        c,
                        spec_get_relationship(as_obj@, b@.next_hop_asn),
                        spec_get_relationship(as_obj@, c.next_hop_asn),
                    ) is Less by {
                        let nh = choose|nh: ASN|
                            #[trigger] self.ribs_in@.contains_key(nh)
                                && self.ribs_in@[nh].contains_key(*prefix)
                                && self.ribs_in@[nh][*prefix] == c && !c.withdraw;
                        self.ribs_in.lemma_view_in_entries(nh);
                        let j = choose|j: int|
                            0 <= j < self.ribs_in.pairs().len() && (
                            #[trigger] self.ribs_in.pairs()[j]).0 == nh;
                        self.ribs_in.lemma_entry_in_view(j);
                        assert(self.ribs_in.pairs()[j].1@.contains_key(*prefix));
                        assert(self.ribs_in.pairs()[j].1@[*prefix] == c);
                    }
                },
                None => {
                    assert forall|c: AnnView| !spec_is_candidate(self.ribs_in@, *prefix, c) by {
                        if spec_is_candidate(self.ribs_in@, *prefix, c) {
                            let nh = choose|nh: ASN|
                                #[trigger] self.ribs_in@.contains_key(nh)
                                    && self.ribs_in@[nh].contains_key(*prefix)
                                    && self.ribs_in@[nh][*prefix] == c && !c.withdraw;
                            self.ribs_in.lemma_view_in_entries(nh);
                            let j = choose|j: int|
                                0 <= j < self.ribs_in.pairs().len() && (
                                #[trigger] self.ribs_in.pairs()[j]).0 == nh;
                            self.ribs_in.lemma_entry_in_view(j);
                        }
                    }
                },
            }
        }
        best
    }
}

/// Two candidate routes for one prefix held under different neighbor keys
/// carry different next hops.
proof fn lemma_candidates_distinct_next_hops(p: &Policy, prefix: Prefix, upto: int)
    requires
        p.wf(),
        spec_ribs_in_ok(p.ribs_in@, p.asn),
        0 <= upto < p.ribs_in.pairs().len(),
    ensures
        forall|j: int|
            0 <= j <= upto && (#[trigger] p.ribs_in.pairs()[j]).1@.contains_key(prefix) ==> {
                p.ribs_in.pairs()[j].1@[prefix].next_hop_asn == p.ribs_in.pairs()[j].0
            },
{
    assert forall|j: int|
        0 <= j <= upto && (#[trigger] p.ribs_in.pairs()[j]).1@.contains_key(prefix) implies {
        p.ribs_in.pairs()[j].1@[prefix].next_hop_asn == p.ribs_in.pairs()[j].0
    } by {
        p.ribs_in.lemma_entry_in_view(j);
        let nh = p.ribs_in.pairs()[j].0;
        assert(p.ribs_in@.contains_key(nh) && p.ribs_in@[nh].contains_key(prefix));
    }
}


/// A RIBs-in table after one announcement is filed under its next hop.
pub open spec fn spec_nested_insert(
    m: Map<ASN, Map<Prefix, AnnView>>,
    nh: ASN,
    p: Prefix,
    a: AnnView,
) -> Map<ASN, Map<Prefix, AnnView>> {
    let inner = if m.contains_key(nh) {
        m[nh]
    } else {
        Map::empty()
    };
    m.insert(nh, inner.insert(p, a))
}

/// The best route as stored locally: the owning ASN prepended unless it
/// already heads the path.
pub open spec fn spec_prepend_self(b: AnnView, asn: ASN) -> AnnView {
    if b.as_path.len() > 0 && b.as_path[0] == asn {
        b
    } else {
        AnnView { as_path: seq![asn] + b.as_path, ..b }
    }
}

/// The withdrawal an AS originates when a prefix loses its last route.
pub open spec fn spec_withdraw_ann(a: AnnView, asn: ASN) -> AnnView {
    AnnView {
        prefix: a.prefix,
        as_path: seq![asn],
        next_hop_asn: asn,
        recv_relationship: Relationships::Origin,
        timestamp: a.timestamp,
        withdraw: true,
        bgpsec_next_asn: None,
        bgpsec_as_path: None,
        only_to_customers: None,
        rovpp_blackhole: None,
        rost_ids: None,
    }
}

/// The copy of a stored route handed to a neighbor of one kind: the stored
/// self-prepended hop is stripped and the copy re-stamped for the hop.
pub open spec fn spec_send_ann(b: AnnView, self_asn: ASN, rel: Relationships) -> AnnView {
    let stripped = if b.as_path.len() > 0 && b.as_path[0] == self_asn {
        AnnView { as_path: b.as_path.drop_first(), ..b }
    } else {
        b
    };
    stripped.spec_copy_and_process(self_asn, rel.spec_invert())
}

/// The ghost image of a delivery list.
pub open spec fn spec_deliveries_view(s: Seq<(ASN, Announcement, Relationships)>) -> Seq<
    (ASN, AnnView, Relationships),
> {
    s.map_values(|d: (ASN, Announcement, Relationships)| (d.0, d.1@, d.2))
}

/// The deliveries one relationship kind produces: one stamped copy per
/// neighbor of that kind, or none when the extension does not export there.
pub open spec fn spec_out_for_rel(
    ext: &PolicyExtension,
    b: AnnView,
    asv: ASView,
    self_asn: ASN,
    rel: Relationships,
) -> Seq<(ASN, AnnView, Relationships)> {
    if spec_ext_should_propagate(ext, b, b.recv_relationship, rel) {
        Seq::new(
            asv.spec_neighbors(rel).len(),
            |i: int| (asv.spec_neighbors(rel)[i], spec_send_ann(b, self_asn, rel), rel.spec_invert()),
        )
    } else {
        Seq::empty()
    }
}

/// All deliveries a stored route produces: customers, then peers, then
/// providers.
pub open spec fn spec_outgoing(
    ext: &PolicyExtension,
    b: AnnView,
    asv: ASView,
    self_asn: ASN,
) -> Seq<(ASN, AnnView, Relationships)> {
    spec_out_for_rel(ext, b, asv, self_asn, Relationships::Customers) + spec_out_for_rel(
        ext,
        b,
        asv,
        self_asn,
        Relationships::Peers,
    ) + spec_out_for_rel(ext, b, asv, self_asn, Relationships::Providers)
}

/// A RIBs-out table after a list of deliveries is mirrored into it.
pub open spec fn spec_ribs_out_after(
    m: Map<ASN, Map<Prefix, AnnView>>,
    ds: Seq<(ASN, AnnView, Relationships)>,
) -> Map<ASN, Map<Prefix, AnnView>>
    decreases ds.len(),
{
    if ds.len() == 0 {
        m
    } else {
        let m1 = spec_ribs_out_after(m, ds.drop_last());
        let d = ds.last();
        spec_nested_insert(m1, d.0, d.1.prefix, d.1)
    }
}

/// Mirroring a concatenation mirrors the parts in turn.
pub proof fn lemma_ribs_out_after_concat(
    m: Map<ASN, Map<Prefix, AnnView>>,
    s1: Seq<(ASN, AnnView, Relationships)>,
    s2: Seq<(ASN, AnnView, Relationships)>,
)
    ensures
        spec_ribs_out_after(m, s1 + s2) == spec_ribs_out_after(spec_ribs_out_after(m, s1), s2),
    decreases s2.len(),
{
    if s2.len() == 0 {
        assert(s1 + s2 =~= s1);
    } else {
        lemma_ribs_out_after_concat(m, s1, s2.drop_last());
        assert((s1 + s2).drop_last() =~= s1 + s2.drop_last());
        assert((s1 + s2).last() == s2.last());
    }
}

/// One step of this policy's state machine: how processing one validated
/// announcement relates the state before, the state after, and the
/// deliveries handed to the engine.
pub open spec fn spec_process_step(
    pre: Policy,
    post: Policy,
    dv: Seq<(ASN, AnnView, Relationships)>,
    a: AnnView,
    rel: Relationships,
    asv: ASView,
) -> bool {
    let ribs_in1 = spec_nested_insert(pre.ribs_in@, a.next_hop_asn, a.prefix, a);
    &&& post.asn == pre.asn
    &&& post.settings == pre.settings
    &&& post.extension == pre.extension
    &&& post.recv_q@ == pre.recv_q@
    &&& post.ribs_in@ == ribs_in1
    &&& if exists|c: AnnView| spec_is_candidate(ribs_in1, a.prefix, c) {
        exists|b: AnnView|
            {
                &&& #[trigger] spec_is_best(&pre.extension, ribs_in1, a.prefix, asv, b)
                &&& {
                    let bp = spec_prepend_self(b, pre.asn);
                    let keep = bp.only_to_customers != Some(true) || rel is Customers
                        || rel is Origin;
                    &&& post.local_rib@ == pre.local_rib@.insert(a.prefix, bp)
                    &&& dv == if keep {
                        spec_outgoing(&pre.extension, bp, asv, pre.asn)
                    } else {
                        Seq::<(ASN, AnnView, Relationships)>::empty()
                    }
                    &&& post.ribs_out@ == spec_ribs_out_after(pre.ribs_out@, dv)
                }
            }
    } else if a.withdraw {
        &&& post.local_rib@ == pre.local_rib@.remove(a.prefix)
        &&& dv == spec_outgoing(&pre.extension, spec_withdraw_ann(a, pre.asn), asv, pre.asn)
        &&& post.ribs_out@ == spec_ribs_out_after(pre.ribs_out@, dv)
    } else {
        &&& post.local_rib@ == pre.local_rib@
        &&& dv.len() == 0
        &&& post.ribs_out@ == pre.ribs_out@
    }
}

/// Validation under any policy rejects a path that already carries the
/// receiving AS.
pub proof fn lemma_validate_no_loop(
    ext: &PolicyExtension,
    a: AnnView,
    rel: Relationships,
    asv: ASView,
)
    requires
        spec_ext_validate(ext, a, rel, asv),
    ensures
        !a.as_path.contains(asv.asn),
{
}

impl Policy {
    /// Mirror one stamped copy per neighbor of one kind into RIBs-out and
    /// hand the copies back for delivery; nothing is sent when the extension
    /// does not export to that kind.
    fn emit_for_rel(
        &mut self,
        best_pre: &Announcement,
        rel: Relationships,
        as_obj: &AS,
    ) -> (out: Vec<(ASN, Announcement, Relationships)>)
        requires
            old(self).wf(),
            best_pre@.prefix.wf(),
        ensures
            final(self).wf(),
            final(self).asn == old(self).asn,
            final(self).settings == old(self).settings,
            final(self).extension == old(self).extension,
            final(self).recv_q == old(self).recv_q,
            final(self).local_rib == old(self).local_rib,
            final(self).ribs_in == old(self).ribs_in,
            spec_deliveries_view(out@) == spec_out_for_rel(
                &old(self).extension,
                best_pre@,
                as_obj@,
                old(self).asn,
                rel,
            ),
            final(self).ribs_out@ == spec_ribs_out_after(
                old(self).ribs_out@,
                spec_deliveries_view(out@),
            ),
            forall|i: int| 0 <= i < out@.len() ==> (#[trigger] out@[i]).1@.prefix.wf(),
    {
        let mut out: Vec<(ASN, Announcement, Relationships)> = Vec::new();
        if !self.should_propagate_to_rel(best_pre, rel) {
            proof {
                assert(spec_deliveries_view(out@) =~= spec_out_for_rel(
                    &self.extension,
                    best_pre@,
                    as_obj@,
                    self.asn,
                    rel,
                ));
            }
            return out;
        }
        let neighbors = as_obj.get_neighbors(rel);
        let recv_rel_for_neighbor = rel.invert();
        // The copy is the same for every neighbor of this kind.
        let mut ann_to_send = best_pre.clone_ann();
        if ann_to_send.as_path.len() > 0 && ann_to_send.as_path[0] == self.asn {
            ann_to_send.as_path.remove(0);
        }
        let new_ann = ann_to_send.copy_and_process(self.asn, recv_rel_for_neighbor);
        proof {
            if best_pre@.as_path.len() > 0 && best_pre@.as_path[0] == self.asn {
                assert(ann_to_send@ =~= AnnView {
                    as_path: best_pre@.as_path.drop_first(),
                    ..best_pre@
                });
                assert(best_pre@.as_path.remove(0) =~= best_pre@.as_path.drop_first());
            }
            assert(new_ann@ == spec_send_ann(best_pre@, self.asn, rel));
        }
        let ghost target = spec_out_for_rel(&self.extension, best_pre@, as_obj@, self.asn, rel);
        let mut i: usize = 0;
        while i < neighbors.len()
            invariant
                self.wf(),
                self.asn == old(self).asn,
                self.settings == old(self).settings,
                self.extension == old(self).extension,
                self.recv_q == old(self).recv_q,
                self.local_rib == old(self).local_rib,
                self.ribs_in == old(self).ribs_in,
                i <= neighbors@.len(),
                neighbors@ == as_obj@.spec_neighbors(rel),
                new_ann@ == spec_send_ann(best_pre@, old(self).asn, rel),
                new_ann@.prefix == best_pre@.prefix,
                best_pre@.prefix.wf(),
                recv_rel_for_neighbor == rel.spec_invert(),
                target == spec_out_for_rel(
                    &old(self).extension,
                    best_pre@,
                    as_obj@,
                    old(self).asn,
                    rel,
                ),
                target.len() == neighbors@.len(),
                forall|j: int| 0 <= j < target.len() ==> target[j] == (
                    neighbors@[j],
                    new_ann@,
                    rel.spec_invert(),
                ),
                spec_deliveries_view(out@) =~= target.take(i as int),
                self.ribs_out@ == spec_ribs_out_after(
                    old(self).ribs_out@,
                    spec_deliveries_view(out@),
                ),
                forall|j: int| 0 <= j < out@.len() ==> (#[trigger] out@[j]).1@.prefix.wf(),
            decreases neighbors@.len() - i,
        {
            let neighbor_asn = neighbors[i];
            let ghost pre_out_view = spec_deliveries_view(out@);
            let ghost pre_ribs_out = self.ribs_out@;
            let ghost pre_pairs_out = self.ribs_out.pairs();
            // Mirror into RIBs-out.
            let has = self.ribs_out.contains_key(&neighbor_asn);
            if has {
                match self.ribs_out.get_mut(&neighbor_asn) {
                    Some(rib) => {
                        proof {
                            let j = choose|j: int|
                                0 <= j < pre_pairs_out.len() && #[trigger] pre_pairs_out[j] == (
                                neighbor_asn,
                                *rib,
                                );
                            assert(pre_pairs_out[j].1.wf());
                        }
                        rib.insert(new_ann.prefix, new_ann.clone_ann());
                    },
                    None => {},
                }
            } else {
                let mut rib: Rib = AssocMap::new();
                rib.insert(new_ann.prefix, new_ann.clone_ann());
                self.ribs_out.insert(neighbor_asn, rib);
            }
            proof {
                assert(self.ribs_out@ =~= spec_nested_insert(
                    pre_ribs_out,
                    neighbor_asn,
                    new_ann@.prefix,
                    new_ann@,
                ));
            }
            out.push((neighbor_asn, new_ann.clone_ann(), recv_rel_for_neighbor));
            proof {
                assert(spec_deliveries_view(out@) =~= pre_out_view.push(
                    (neighbor_asn, new_ann@, rel.spec_invert()),
                ));
                assert(spec_deliveries_view(out@) =~= target.take(i as int + 1));
                assert(spec_deliveries_view(out@).drop_last() =~= pre_out_view);
                assert(self.ribs_out@ =~= spec_ribs_out_after(
                    old(self).ribs_out@,
                    spec_deliveries_view(out@),
                ));
            }
            i = i + 1;
        }
        proof {
            assert(spec_deliveries_view(out@) =~= target);
        }
        out
    }

    /// File a validated announcement, recompute the best route for its
    /// prefix, and return the copies to deliver to neighbors. A withdrawal
    /// that removes the last route clears the prefix locally and floods a
    /// self-originated withdrawal.
    pub fn process_ann(
        &mut self,
        ann: Announcement,
        recv_relationship: Relationships,
        as_obj: &AS,
        as_graph: &ASGraph,
    ) -> (deliveries: Vec<(ASN, Announcement, Relationships)>)
        requires
            old(self).wf(),
            spec_ribs_in_ok(old(self).ribs_in@, old(self).asn),
            spec_local_rib_ok(old(self).local_rib@, old(self).asn),
            ann@.prefix.wf(),
            spec_ext_validate(&old(self).extension, ann@, recv_relationship, as_obj@),
            as_obj@.asn == old(self).asn,
        ensures
            final(self).wf(),
            spec_ribs_in_ok(final(self).ribs_in@, final(self).asn),
            spec_local_rib_ok(final(self).local_rib@, final(self).asn),
            spec_process_step(
                *old(self),
                *final(self),
                spec_deliveries_view(deliveries@),
                ann@,
                recv_relationship,
                as_obj@,
            ),
            forall|i: int| 0 <= i < deliveries@.len() ==> (#[trigger] deliveries@[i]).1@.prefix.wf(),
    {
        proof {
            lemma_validate_no_loop(&self.extension, ann@, recv_relationship, as_obj@);
        }
        let prefix = ann.prefix;
        let nh = ann.next_hop_asn;
        let ghost pre = *self;
        // File the announcement under its next hop.
        let has = self.ribs_in.contains_key(&nh);
        if has {
            match self.ribs_in.get_mut(&nh) {
                Some(rib) => {
                    proof {
                        let j = choose|j: int|
                            0 <= j < pre.ribs_in.pairs().len() && #[trigger] pre.ribs_in.pairs()[j]
                                == (nh, *rib);
                        assert(pre.ribs_in.pairs()[j].1.wf());
                    }
                    rib.insert(prefix, ann.clone_ann());
                },
                None => {},
            }
        } else {
            let mut rib: Rib = AssocMap::new();
            rib.insert(prefix, ann.clone_ann());
            self.ribs_in.insert(nh, rib);
        }
        proof {
            assert(self.ribs_in@ =~= spec_nested_insert(pre.ribs_in@, nh, prefix, ann@));
            assert(spec_ribs_in_ok(self.ribs_in@, self.asn)) by {
                assert forall|nh2: ASN, p2: Prefix|
                    #[trigger] self.ribs_in@.contains_key(nh2)
                        && #[trigger] self.ribs_in@[nh2].contains_key(p2) implies {
                    &&& self.ribs_in@[nh2][p2].next_hop_asn == nh2
                    &&& self.ribs_in@[nh2][p2].prefix == p2
                    &&& self.ribs_in@[nh2][p2].prefix.wf()
                    &&& !self.ribs_in@[nh2][p2].as_path.contains(self.asn)
                } by {
                    if nh2 == nh && p2 == prefix {
                    } else if nh2 == nh {
                        assert(pre.ribs_in@.contains_key(nh) && pre.ribs_in@[nh].contains_key(p2));
                    } else {
                        assert(pre.ribs_in@.contains_key(nh2) && pre.ribs_in@[nh2].contains_key(
                            p2,
                        ));
                    }
                }
            }
        }
        let best = self.get_best_ann_for_prefix(&prefix, as_obj);
        match best {
            Some(b) => {
                let mut best_pre = b;
                if !(best_pre.as_path.len() > 0 && best_pre.as_path[0] == self.asn) {
                    best_pre.as_path.insert(0, self.asn);
                }
                proof {
                    assert(best_pre@ =~= spec_prepend_self(
                        spec_best_witness(&pre.extension, self.ribs_in@, prefix, as_obj@),
                        self.asn,
                    )) by {
                        let bw = spec_best_witness(&pre.extension, self.ribs_in@, prefix, as_obj@);
                        lemma_best_unique(
                            &pre.extension,
                            self.ribs_in@,
                            prefix,
                            as_obj@,
                            bw,
                            b@,
                        );
                        if b@.as_path.len() > 0 && b@.as_path[0] == self.asn {
                        } else {
                            assert(best_pre@.as_path =~= seq![self.asn] + b@.as_path);
                        }
                    }
                }
                self.local_rib.insert(prefix, best_pre.clone_ann());
                proof {
                    assert(spec_local_rib_ok(self.local_rib@, self.asn)) by {
                        let c = b@;
                        assert(spec_is_candidate(self.ribs_in@, prefix, c));
                        let nhc = choose|nhc: ASN|
                            #[trigger] self.ribs_in@.contains_key(nhc)
                                && self.ribs_in@[nhc].contains_key(prefix)
                                && self.ribs_in@[nhc][prefix] == c && !c.withdraw;
                        assert(!c.as_path.contains(self.asn));
                        assert(best_pre@.as_path =~= seq![self.asn] + c.as_path);
                        assert(best_pre@.as_path.skip(1) =~= c.as_path);
                        assert(c.prefix == prefix && c.prefix.wf());
                        assert forall|p2: Prefix|
                            #[trigger] self.local_rib@.contains_key(p2) implies {
                            &&& self.local_rib@[p2].as_path.len() > 0
                            &&& self.local_rib@[p2].as_path[0] == self.asn
                            &&& !self.local_rib@[p2].as_path.skip(1).contains(self.asn)
                            &&& self.local_rib@[p2].prefix == p2
                            &&& self.local_rib@[p2].prefix.wf()
                        } by {
                            if p2 != prefix {
                                assert(pre.local_rib@.contains_key(p2));
                            }
                        }
                    }
                }
                let keep = self.should_propagate(&best_pre, recv_relationship);
                if keep {
                    let out_c = self.emit_for_rel(&best_pre, Relationships::Customers, as_obj);
                    let out_p = self.emit_for_rel(&best_pre, Relationships::Peers, as_obj);
                    let out_pr = self.emit_for_rel(&best_pre, Relationships::Providers, as_obj);
                    let deliveries = concat_deliveries(out_c, out_p, out_pr);
                    proof {
                        lemma_ribs_out_after_concat(
                            pre.ribs_out@,
                            spec_out_for_rel(
                                &pre.extension,
                                best_pre@,
                                as_obj@,
                                pre.asn,
                                Relationships::Customers,
                            ),
                            spec_out_for_rel(
                                &pre.extension,
                                best_pre@,
                                as_obj@,
                                pre.asn,
                                Relationships::Peers,
                            ),
                        );
                        lemma_ribs_out_after_concat(
                            pre.ribs_out@,
                            spec_out_for_rel(
                                &pre.extension,
                                best_pre@,
                                as_obj@,
                                pre.asn,
                                Relationships::Customers,
                            ) + spec_out_for_rel(
                                &pre.extension,
                                best_pre@,
                                as_obj@,
                                pre.asn,
                                Relationships::Peers,
                            ),
                            spec_out_for_rel(
                                &pre.extension,
                                best_pre@,
                                as_obj@,
                                pre.asn,
                                Relationships::Providers,
                            ),
                        );
                        assert(spec_deliveries_view(deliveries@) =~= spec_outgoing(
                            &pre.extension,
                            best_pre@,
                            as_obj@,
                            pre.asn,
                        ));
                        assert(spec_process_step(
                            pre,
                            *self,
                            spec_deliveries_view(deliveries@),
                            ann@,
                            recv_relationship,
                            as_obj@,
                        ));
                    }
                    deliveries
                } else {
                    let deliveries: Vec<(ASN, Announcement, Relationships)> = Vec::new();
                    proof {
                        assert(spec_deliveries_view(deliveries@) =~= Seq::<
                            (ASN, AnnView, Relationships),
                        >::empty());
                        assert(self.ribs_out@ == spec_ribs_out_after(
                            pre.ribs_out@,
                            spec_deliveries_view(deliveries@),
                        ));
                        assert(spec_process_step(
                            pre,
                            *self,
                            spec_deliveries_view(deliveries@),
                            ann@,
                            recv_relationship,
                            as_obj@,
                        ));
                    }
                    deliveries
                }
            },
            None => {
                if ann.withdraw {
                    self.local_rib.remove(&prefix);
                    let withdraw_ann = Announcement {
                        prefix,
                        as_path: single_asn_vec(as_obj.asn),
                        next_hop_asn: as_obj.asn,
                        recv_relationship: Relationships::Origin,
                        timestamp: ann.timestamp,
                        withdraw: true,
                        bgpsec_next_asn: None,
                        bgpsec_as_path: None,
                        only_to_customers: None,
                        rovpp_blackhole: None,
                        rost_ids: None,
                    };
                    proof {
                        assert(withdraw_ann@ =~= spec_withdraw_ann(ann@, pre.asn));
                        assert(spec_local_rib_ok(self.local_rib@, self.asn)) by {
                            assert forall|p2: Prefix|
                                #[trigger] self.local_rib@.contains_key(p2) implies {
                                &&& self.local_rib@[p2].as_path.len() > 0
                                &&& self.local_rib@[p2].as_path[0] == self.asn
                                &&& !self.local_rib@[p2].as_path.skip(1).contains(self.asn)
                                &&& self.local_rib@[p2].prefix == p2
                                &&& self.local_rib@[p2].prefix.wf()
                            } by {
                                assert(pre.local_rib@.contains_key(p2));
                            }
                        }
                    }
                    let out_c = self.emit_for_rel(&withdraw_ann, Relationships::Customers, as_obj);
                    let out_p = self.emit_for_rel(&withdraw_ann, Relationships::Peers, as_obj);
                    let out_pr = self.emit_for_rel(&withdraw_ann, Relationships::Providers, as_obj);
                    let deliveries = concat_deliveries(out_c, out_p, out_pr);
                    proof {
                        let wv = spec_withdraw_ann(ann@, pre.asn);
                        lemma_ribs_out_after_concat(
                            pre.ribs_out@,
                            spec_out_for_rel(
                                &pre.extension,
                                wv,
                                as_obj@,
                                pre.asn,
                                Relationships::Customers,
                            ),
                            spec_out_for_rel(
                                &pre.extension,
                                wv,
                                as_obj@,
                                pre.asn,
                                Relationships::Peers,
                            ),
                        );
                        lemma_ribs_out_after_concat(
                            pre.ribs_out@,
                            spec_out_for_rel(
                                &pre.extension,
                                wv,
                                as_obj@,
                                pre.asn,
                                Relationships::Customers,
                            ) + spec_out_for_rel(
                                &pre.extension,
                                wv,
                                as_obj@,
                                pre.asn,
                                Relationships::Peers,
                            ),
                            spec_out_for_rel(
                                &pre.extension,
                                wv,
                                as_obj@,
                                pre.asn,
                                Relationships::Providers,
                            ),
                        );
                        assert(spec_deliveries_view(deliveries@) =~= spec_outgoing(
                            &pre.extension,
                            wv,
                            as_obj@,
                            pre.asn,
                        ));
                        assert(spec_process_step(
                            pre,
                            *self,
                            spec_deliveries_view(deliveries@),
                            ann@,
                            recv_relationship,
                            as_obj@,
                        ));
                    }
                    deliveries
                } else {
                    let deliveries: Vec<(ASN, Announcement, Relationships)> = Vec::new();
                    proof {
                        assert(self.ribs_in@.contains_key(nh));
                        assert(self.ribs_in@[nh].contains_key(prefix));
                        assert(self.ribs_in@[nh][prefix] == ann@);
                        assert(spec_is_candidate(self.ribs_in@, prefix, ann@));
                        assert(false);
                    }
                    deliveries
                }
            },
        }
    }
}

/// The unique best candidate, named for contracts.
pub open spec fn spec_best_witness(
    ext: &PolicyExtension,
    ribs_in: Map<ASN, Map<Prefix, AnnView>>,
    prefix: Prefix,
    asv: ASView,
) -> AnnView {
    choose|b: AnnView| spec_is_best(ext, ribs_in, prefix, asv, b)
}

/// A vector holding one ASN.
fn single_asn_vec(asn: ASN) -> (r: Vec<ASN>)
    ensures
        r@ =~= seq![asn],
{
    let mut r: Vec<ASN> = Vec::new();
    r.push(asn);
    r
}

/// Concatenation of three delivery lists.
fn concat_deliveries(
    a: Vec<(ASN, Announcement, Relationships)>,
    b: Vec<(ASN, Announcement, Relationships)>,
    c: Vec<(ASN, Announcement, Relationships)>,
) -> (r: Vec<(ASN, Announcement, Relationships)>)
    requires
        forall|i: int| 0 <= i < a@.len() ==> (#[trigger] a@[i]).1@.prefix.wf(),
        forall|i: int| 0 <= i < b@.len() ==> (#[trigger] b@[i]).1@.prefix.wf(),
        forall|i: int| 0 <= i < c@.len() ==> (#[trigger] c@[i]).1@.prefix.wf(),
    ensures
        spec_deliveries_view(r@) =~= spec_deliveries_view(a@) + spec_deliveries_view(b@)
            + spec_deliveries_view(c@),
        forall|i: int| 0 <= i < r@.len() ==> (#[trigger] r@[i]).1@.prefix.wf(),
{
    let mut r = a;
    let mut b = b;
    let mut c = c;
    let ghost a0 = r@;
    let ghost b0 = b@;
    let ghost c0 = c@;
    r.append(&mut b);
    r.append(&mut c);
    proof {
        assert(r@ =~= a0 + b0 + c0);
        assert forall|i: int| 0 <= i < r@.len() implies (#[trigger] r@[i]).1@.prefix.wf() by {
            if i < a0.len() {
                assert(r@[i] == a0[i]);
            } else if i < a0.len() + b0.len() {
                assert(r@[i] == b0[i - a0.len()]);
            } else {
                assert(r@[i] == c0[i - a0.len() - b0.len()]);
            }
        }
        assert(spec_deliveries_view(r@) =~= spec_deliveries_view(a0) + spec_deliveries_view(b0)
            + spec_deliveries_view(c0));
    }
    r
}


/// The announcement as seeded at an origin: the seeding ASN heads the path
/// (added unless already present), the next hop and relationship mark local
/// origination.
pub open spec fn spec_seed_norm(a: AnnView, asn: ASN) -> AnnView {
    let path = if a.withdraw {
        a.as_path
    } else if a.as_path.len() == 0 {
        seq![asn]
    } else if !a.as_path.contains(asn) {
        seq![asn] + a.as_path
    } else {
        a.as_path
    };
    AnnView {
        as_path: path,
        next_hop_asn: asn,
        recv_relationship: Relationships::Origin,
        ..a
    }
}

/// How seeding one announcement relates the state before and after.
pub open spec fn spec_seed_step(pre: Policy, post: Policy, a: AnnView) -> bool {
    &&& post.asn == pre.asn
    &&& post.settings == pre.settings
    &&& post.extension == pre.extension
    &&& post.recv_q@ == pre.recv_q@
    &&& post.ribs_in@ == pre.ribs_in@
    &&& post.ribs_out@ == pre.ribs_out@
    &&& post.local_rib@ == if a.withdraw {
        pre.local_rib@.remove(a.prefix)
    } else {
        pre.local_rib@.insert(a.prefix, spec_seed_norm(a, pre.asn))
    }
}

impl Policy {
    /// Seed an announcement at this AS as its origin: normalize it and place
    /// it in (or, for a withdrawal, remove its prefix from) the local RIB.
    pub fn seed_ann(&mut self, ann: Announcement)
        requires
            old(self).wf(),
            spec_local_rib_ok(old(self).local_rib@, old(self).asn),
            ann@.prefix.wf(),
            !ann@.withdraw && ann@.as_path.contains(old(self).asn) ==> (ann@.as_path[0] == old(self).asn && !ann@.as_path.skip(1).contains(old(self).asn)),
        ensures
            final(self).wf(),
            spec_local_rib_ok(final(self).local_rib@, final(self).asn),
            spec_seed_step(*old(self), *final(self), ann@),
    {
        let ghost pre = *self;
        let ghost a0 = ann@;
        let mut ann = ann;
        if !ann.withdraw {
            if ann.as_path.len() == 0 {
                ann.as_path.push(self.asn);
                proof {
                    assert(ann@.as_path =~= seq![pre.asn]);
                }
            } else if !crate::vecs::contains_asn(&ann.as_path, self.asn) {
                ann.as_path.insert(0, self.asn);
                proof {
                    assert(ann@.as_path =~= seq![pre.asn] + a0.as_path);
                }
            }
        }
        ann.next_hop_asn = self.asn;
        ann.recv_relationship = Relationships::Origin;
        proof {
            assert(ann@ =~= spec_seed_norm(a0, pre.asn));
            if !a0.withdraw {
                let normed = spec_seed_norm(a0, pre.asn);
                assert(normed.as_path.len() > 0 && normed.as_path[0] == pre.asn
                    && !normed.as_path.skip(1).contains(pre.asn)) by {
                    if a0.as_path.len() == 0 {
                        assert(normed.as_path =~= seq![pre.asn]);
                        assert(normed.as_path.skip(1) =~= Seq::<ASN>::empty());
                    } else if !a0.as_path.contains(pre.asn) {
                        assert(normed.as_path.skip(1) =~= a0.as_path);
                    } else {
                    }
                }
            }
        }
        if ann.withdraw {
            self.local_rib.remove(&ann.prefix);
        } else {
            let prefix = ann.prefix;
            self.local_rib.insert(prefix, ann);
        }
        proof {
            assert forall|p2: Prefix| #[trigger] self.local_rib@.contains_key(p2) implies {
                &&& self.local_rib@[p2].as_path.len() > 0
                &&& self.local_rib@[p2].as_path[0] == self.asn
                &&& !self.local_rib@[p2].as_path.skip(1).contains(self.asn)
                &&& self.local_rib@[p2].prefix == p2
                &&& self.local_rib@[p2].prefix.wf()
            } by {
                if a0.withdraw || p2 != a0.prefix {
                    assert(pre.local_rib@.contains_key(p2));
                }
            }
        }
    }

    /// Drain the receive queue in arrival order, validating each
    /// announcement and processing the accepted ones; the copies every
    /// accepted route produces are returned for delivery. The final state
    /// and the deliveries are the fold of the processing step over the
    /// drained queue.
    pub fn process_incoming_anns(&mut self, as_obj: &AS, as_graph: &ASGraph) -> (deliveries: Vec<
        (ASN, Announcement, Relationships),
    >)
        requires
            old(self).wf(),
            spec_ribs_in_ok(old(self).ribs_in@, old(self).asn),
            spec_local_rib_ok(old(self).local_rib@, old(self).asn),
            as_obj@.asn == old(self).asn,
        ensures
            final(self).wf(),
            spec_ribs_in_ok(final(self).ribs_in@, final(self).asn),
            spec_local_rib_ok(final(self).local_rib@, final(self).asn),
            final(self).recv_q@.len() == 0,
            final(self).asn == old(self).asn,
            final(self).settings == old(self).settings,
            final(self).extension == old(self).extension,
            forall|i: int| 0 <= i < deliveries@.len() ==> (#[trigger] deliveries@[i]).1@.prefix.wf(),
            exists|s0: Policy|
                {
                    &&& s0.local_rib@ == old(self).local_rib@
                    &&& s0.ribs_in@ == old(self).ribs_in@
                    &&& s0.ribs_out@ == old(self).ribs_out@
                    &&& s0.recv_q@.len() == 0
                    &&& s0.settings == old(self).settings
                    &&& s0.asn == old(self).asn
                    &&& s0.extension == old(self).extension
                    &&& #[trigger] spec_process_queue(
                        s0,
                        *final(self),
                        spec_deliveries_view(deliveries@),
                        spec_queue_view(old(self).recv_q@),
                        as_obj@,
                    )
                },
    {
        let mut q: Vec<AnnInfo> = Vec::new();
        core::mem::swap(&mut q, &mut self.recv_q);
        let ghost s0 = *self;
        let ghost qv = spec_queue_view(q@);
        proof {
            assert(spec_state_eq(*self, s0));
            assert(spec_deliveries_view(Seq::<(ASN, Announcement, Relationships)>::empty()) =~= Seq::<
                (ASN, AnnView, Relationships),
            >::empty());
            assert(qv.take(0) =~= Seq::<(AnnView, Relationships)>::empty());
        }
        let mut deliveries: Vec<(ASN, Announcement, Relationships)> = Vec::new();
        let mut i: usize = 0;
        while i < q.len()
            invariant
                self.wf(),
                spec_ribs_in_ok(self.ribs_in@, self.asn),
                spec_local_rib_ok(self.local_rib@, self.asn),
                self.recv_q@.len() == 0,
                self.asn == old(self).asn,
                self.settings == old(self).settings,
                self.extension == old(self).extension,
                as_obj@.asn == old(self).asn,
                i <= q@.len(),
                qv == spec_queue_view(q@),
                s0.recv_q@.len() == 0,
                spec_process_queue(
                    s0,
                    *self,
                    spec_deliveries_view(deliveries@),
                    qv.take(i as int),
                    as_obj@,
                ),
                forall|j: int| 0 <= j < q@.len() ==> (#[trigger] q@[j]).ann@.prefix.wf(),
                forall|j: int|
                    0 <= j < deliveries@.len() ==> (#[trigger] deliveries@[j]).1@.prefix.wf(),
            decreases q@.len() - i,
        {
            let ghost pre_self = *self;
            let ghost pre_deliveries = deliveries@;
            let ghost item = qv[i as int];
            proof {
                assert(item == (q@[i as int].ann@, q@[i as int].recv_relationship));
                assert(qv.take(i as int + 1) =~= qv.take(i as int).push(item));
            }
            let valid = self.valid_ann(
                &q[i].ann,
                q[i].recv_relationship,
                as_obj,
                as_graph,
            );
            if valid {
                let mut ds = self.process_ann(
                    q[i].ann.clone_ann(),
                    q[i].recv_relationship,
                    as_obj,
                    as_graph,
                );
                let ghost ds0 = ds@;
                deliveries.append(&mut ds);
                proof {
                    assert(deliveries@ =~= pre_deliveries + ds0);
                    assert(spec_deliveries_view(deliveries@) =~= spec_deliveries_view(
                        pre_deliveries,
                    ) + spec_deliveries_view(ds0));
                    lemma_queue_snoc(
                        s0,
                        pre_self,
                        *self,
                        spec_deliveries_view(pre_deliveries),
                        spec_deliveries_view(ds0),
                        qv.take(i as int),
                        item,
                        as_obj@,
                    );
                    assert forall|j: int| 0 <= j < deliveries@.len() implies (
                    #[trigger] deliveries@[j]).1@.prefix.wf() by {
                        if j < pre_deliveries.len() {
                            assert(deliveries@[j] == pre_deliveries[j]);
                        } else {
                            assert(deliveries@[j] == ds0[j - pre_deliveries.len()]);
                        }
                    }
                }
            } else {
                proof {
                    assert(spec_state_eq(*self, pre_self));
                    lemma_queue_snoc(
                        s0,
                        pre_self,
                        *self,
                        spec_deliveries_view(pre_deliveries),
                        Seq::<(ASN, AnnView, Relationships)>::empty(),
                        qv.take(i as int),
                        item,
                        as_obj@,
                    );
                    assert(spec_deliveries_view(deliveries@) + Seq::<
                        (ASN, AnnView, Relationships),
                    >::empty() =~= spec_deliveries_view(deliveries@));
                }
            }
            i = i + 1;
        }
        proof {
            assert(qv.take(q@.len() as int) =~= qv);
            assert(qv == spec_queue_view(old(self).recv_q@));
        }
        deliveries
    }
}

/// Some delivery in the list is addressed to this neighbor.
pub open spec fn spec_delivered(ds: Seq<(ASN, AnnView, Relationships)>, nbr: ASN) -> bool {
    exists|i: int| 0 <= i < ds.len() && (#[trigger] ds[i]).0 == nbr
}

/// The per-neighbor table of a RIBs-out map, empty when the neighbor has
/// none.
pub open spec fn spec_out_inner(m: Map<ASN, Map<Prefix, AnnView>>, nbr: ASN) -> Map<
    Prefix,
    AnnView,
> {
    if m.contains_key(nbr) {
        m[nbr]
    } else {
        Map::empty()
    }
}

/// Mirroring deliveries that all carry one prefix touches only the entries
/// of delivered neighbors, and only at that prefix.
proof fn lemma_after_frame(
    m: Map<ASN, Map<Prefix, AnnView>>,
    ds: Seq<(ASN, AnnView, Relationships)>,
    pfx: Prefix,
)
    requires
        forall|i: int| 0 <= i < ds.len() ==> (#[trigger] ds[i]).1.prefix == pfx,
    ensures
        forall|nbr: ASN|
            !(#[trigger] spec_delivered(ds, nbr)) ==> (spec_ribs_out_after(m, ds).contains_key(nbr)
                <==> m.contains_key(nbr)) && (m.contains_key(nbr)
                ==> spec_ribs_out_after(m, ds)[nbr] == m[nbr]),
        forall|nbr: ASN|
            #[trigger] spec_out_inner(spec_ribs_out_after(m, ds), nbr).remove(pfx)
                =~= spec_out_inner(m, nbr).remove(pfx),
    decreases ds.len(),
{
    if ds.len() > 0 {
        let ds0 = ds.drop_last();
        let d = ds.last();
        lemma_after_frame(m, ds0, pfx);
        let m1 = spec_ribs_out_after(m, ds0);
        assert(spec_ribs_out_after(m, ds) == spec_nested_insert(m1, d.0, d.1.prefix, d.1));
        assert forall|nbr: ASN|
            !(#[trigger] spec_delivered(ds, nbr)) implies (spec_ribs_out_after(m, ds).contains_key(
            nbr,
        ) <==> m.contains_key(nbr)) && (m.contains_key(nbr) ==> spec_ribs_out_after(m, ds)[nbr]
            == m[nbr]) by {
            if spec_delivered(ds0, nbr) {
                let i = choose|i: int| 0 <= i < ds0.len() && (#[trigger] ds0[i]).0 == nbr;
                assert(ds[i].0 == nbr);
                assert(spec_delivered(ds, nbr));
            } else {
                assert(d.0 != nbr) by {
                    if d.0 == nbr {
                        assert(ds[ds.len() - 1].0 == nbr);
                    }
                }
                assert(!spec_delivered(ds0, nbr)) by {
                    if spec_delivered(ds0, nbr) {
                        let i = choose|i: int| 0 <= i < ds0.len() && (#[trigger] ds0[i]).0 == nbr;
                        assert(ds[i].0 == nbr);
                    }
                }
                assert(m1.contains_key(nbr) <==> m.contains_key(nbr));
                assert(m.contains_key(nbr) ==> m1[nbr] == m[nbr]);
                assert(spec_ribs_out_after(m, ds).contains_key(nbr) <==> m1.contains_key(nbr));
                assert(m1.contains_key(nbr) ==> spec_ribs_out_after(m, ds)[nbr] == m1[nbr]);
            }
        }
        assert forall|nbr: ASN|
            #[trigger] spec_out_inner(spec_ribs_out_after(m, ds), nbr).remove(pfx)
                =~= spec_out_inner(m, nbr).remove(pfx) by {
            assert(ds[ds.len() - 1] == d);
            assert(d.1.prefix == pfx);
            if nbr == d.0 {
                assert(spec_out_inner(spec_ribs_out_after(m, ds), nbr) =~= spec_out_inner(
                    m1,
                    nbr,
                ).insert(pfx, d.1));
                assert(spec_out_inner(spec_ribs_out_after(m, ds), nbr).remove(pfx)
                    =~= spec_out_inner(m1, nbr).remove(pfx));
            } else {
                assert(spec_out_inner(spec_ribs_out_after(m, ds), nbr) == spec_out_inner(
                    m1,
                    nbr,
                ));
            }
        }
    } else {
        assert(spec_ribs_out_after(m, ds) == m);
    }
}

/// Mirroring can be unfolded from the first delivery.
proof fn lemma_after_left(m: Map<ASN, Map<Prefix, AnnView>>, ds: Seq<(ASN, AnnView, Relationships)>)
    requires
        ds.len() > 0,
    ensures
        spec_ribs_out_after(m, ds) == spec_ribs_out_after(
            spec_nested_insert(m, ds[0].0, ds[0].1.prefix, ds[0].1),
            ds.drop_first(),
        ),
    decreases ds.len(),
{
    let stepped = spec_nested_insert(m, ds[0].0, ds[0].1.prefix, ds[0].1);
    if ds.len() == 1 {
        assert(ds.drop_last() =~= Seq::<(ASN, AnnView, Relationships)>::empty());
        assert(spec_ribs_out_after(m, ds.drop_last()) == m);
        assert(ds.last() == ds[0]);
        assert(spec_ribs_out_after(m, ds) == stepped);
        assert(ds.drop_first() =~= Seq::<(ASN, AnnView, Relationships)>::empty());
        assert(spec_ribs_out_after(stepped, ds.drop_first()) == stepped);
    } else {
        let ds0 = ds.drop_last();
        lemma_after_left(m, ds0);
        assert(ds0[0] == ds[0]);
        assert(ds.drop_first().drop_last() =~= ds0.drop_first());
        assert(ds.drop_first().last() == ds.last());
        assert(spec_ribs_out_after(m, ds) == spec_nested_insert(
            spec_ribs_out_after(m, ds0),
            ds.last().0,
            ds.last().1.prefix,
            ds.last().1,
        ));
        assert(spec_ribs_out_after(stepped, ds.drop_first()) == spec_nested_insert(
            spec_ribs_out_after(stepped, ds0.drop_first()),
            ds.last().0,
            ds.last().1.prefix,
            ds.last().1,
        ));
    }
}

/// Two RIBs-out maps that agree outside the delivered entries, and agree
/// off the delivered prefix inside them, end equal after the same
/// single-prefix delivery list is mirrored into both.
proof fn lemma_after_congruent(
    m1: Map<ASN, Map<Prefix, AnnView>>,
    m2: Map<ASN, Map<Prefix, AnnView>>,
    ds: Seq<(ASN, AnnView, Relationships)>,
    pfx: Prefix,
)
    requires
        forall|i: int| 0 <= i < ds.len() ==> (#[trigger] ds[i]).1.prefix == pfx,
        forall|nbr: ASN|
            #[trigger] spec_delivered(ds, nbr) ==> spec_out_inner(m1, nbr).remove(pfx)
                =~= spec_out_inner(m2, nbr).remove(pfx),
        forall|nbr: ASN|
            !(#[trigger] spec_delivered(ds, nbr)) ==> ((m1.contains_key(nbr) <==> m2.contains_key(
                nbr,
            )) && (m1.contains_key(nbr) ==> m1[nbr] == m2[nbr])),
    ensures
        spec_ribs_out_after(m1, ds) =~~= spec_ribs_out_after(m2, ds),
    decreases ds.len(),
{
    if ds.len() == 0 {
        assert forall|nbr: ASN| #[trigger] m1.contains_key(nbr) || m2.contains_key(
            nbr,
        ) implies m1.contains_key(nbr) && m2.contains_key(nbr) && m1[nbr] == m2[nbr] by {
            if spec_delivered(ds, nbr) {
                let i = choose|i: int| 0 <= i < ds.len() && (#[trigger] ds[i]).0 == nbr;
                assert(false);
            }
            assert(!spec_delivered(ds, nbr));
        }
        assert(m1 =~~= m2);
    } else {
        let d = ds[0];
        let rest = ds.drop_first();
        let m1s = spec_nested_insert(m1, d.0, d.1.prefix, d.1);
        let m2s = spec_nested_insert(m2, d.0, d.1.prefix, d.1);
        assert(spec_delivered(ds, d.0));
        assert(spec_out_inner(m1, d.0).remove(pfx) =~= spec_out_inner(m2, d.0).remove(pfx));
        assert forall|i: int| 0 <= i < rest.len() implies (#[trigger] rest[i]).1.prefix == pfx by {
            assert(rest[i] == ds[i + 1]);
        }
        assert forall|nbr: ASN|
            #[trigger] spec_delivered(rest, nbr) implies spec_out_inner(m1s, nbr).remove(pfx)
            =~= spec_out_inner(m2s, nbr).remove(pfx) by {
            let i = choose|i: int| 0 <= i < rest.len() && (#[trigger] rest[i]).0 == nbr;
            assert(ds[i + 1].0 == nbr);
            assert(spec_delivered(ds, nbr));
            if nbr == d.0 {
                assert(spec_out_inner(m1s, nbr) =~= spec_out_inner(m1, nbr).insert(pfx, d.1));
                assert(spec_out_inner(m2s, nbr) =~= spec_out_inner(m2, nbr).insert(pfx, d.1));
                assert(spec_out_inner(m1s, nbr).remove(pfx) =~= spec_out_inner(m1, nbr).remove(
                    pfx,
                ));
                assert(spec_out_inner(m2s, nbr).remove(pfx) =~= spec_out_inner(m2, nbr).remove(
                    pfx,
                ));
            } else {
                assert(spec_out_inner(m1s, nbr) == spec_out_inner(m1, nbr));
                assert(spec_out_inner(m2s, nbr) == spec_out_inner(m2, nbr));
            }
        }
        assert forall|nbr: ASN|
            !(#[trigger] spec_delivered(rest, nbr)) implies ((m1s.contains_key(nbr)
            <==> m2s.contains_key(nbr)) && (m1s.contains_key(nbr) ==> m1s[nbr] == m2s[nbr])) by {
            if nbr == d.0 {
                let i1 = spec_out_inner(m1, nbr);
                let i2 = spec_out_inner(m2, nbr);
                assert(i1.remove(pfx) =~= i2.remove(pfx));
                assert(m1s[nbr] =~= i1.insert(pfx, d.1));
                assert(m2s[nbr] =~= i2.insert(pfx, d.1));
                assert(i1.insert(pfx, d.1) =~= i1.remove(pfx).insert(pfx, d.1));
                assert(i2.insert(pfx, d.1) =~= i2.remove(pfx).insert(pfx, d.1));
                assert(i1.insert(pfx, d.1) =~= i2.insert(pfx, d.1));
            } else {
                if spec_delivered(ds, nbr) {
                    let i = choose|i: int| 0 <= i < ds.len() && (#[trigger] ds[i]).0 == nbr;
                    assert(i > 0);
                    assert(rest[i - 1].0 == nbr);
                    assert(spec_delivered(rest, nbr));
                    assert(false);
                }
            }
        }
        lemma_after_congruent(m1s, m2s, rest, pfx);
        lemma_after_left(m1, ds);
        lemma_after_left(m2, ds);
    }
}

/// Every delivery a stored route produces carries the route's own prefix.
proof fn lemma_outgoing_prefix(ext: &PolicyExtension, b: AnnView, asv: ASView, self_asn: ASN)
    ensures
        forall|i: int|
            0 <= i < spec_outgoing(ext, b, asv, self_asn).len() ==> (#[trigger] spec_outgoing(
                ext,
                b,
                asv,
                self_asn,
            )[i]).1.prefix == b.prefix,
{
    let oc = spec_out_for_rel(ext, b, asv, self_asn, Relationships::Customers);
    let op = spec_out_for_rel(ext, b, asv, self_asn, Relationships::Peers);
    let opr = spec_out_for_rel(ext, b, asv, self_asn, Relationships::Providers);
    assert(spec_send_ann(b, self_asn, Relationships::Customers).prefix == b.prefix);
    assert(spec_send_ann(b, self_asn, Relationships::Peers).prefix == b.prefix);
    assert(spec_send_ann(b, self_asn, Relationships::Providers).prefix == b.prefix);
    assert forall|i: int| 0 <= i < spec_outgoing(ext, b, asv, self_asn).len() implies (
    #[trigger] spec_outgoing(ext, b, asv, self_asn)[i]).1.prefix == b.prefix by {
        if i < oc.len() {
            assert(spec_outgoing(ext, b, asv, self_asn)[i] == oc[i]);
        } else if i < oc.len() + op.len() {
            assert(spec_outgoing(ext, b, asv, self_asn)[i] == op[i - oc.len()]);
        } else {
            assert(spec_outgoing(ext, b, asv, self_asn)[i] == opr[i - oc.len() - op.len()]);
        }
    }
}

/// Processing the same withdrawal twice leaves the local RIB, the RIBs-in
/// and the RIBs-out exactly as after the first processing, and produces the
/// same deliveries.
pub proof fn lemma_withdrawal_idempotent(
    p0: Policy,
    p1: Policy,
    p2: Policy,
    dv1: Seq<(ASN, AnnView, Relationships)>,
    dv2: Seq<(ASN, AnnView, Relationships)>,
    w: AnnView,
    rel: Relationships,
    asv: ASView,
)
    requires
        w.withdraw,
        spec_ribs_in_ok(p0.ribs_in@, p0.asn),
        spec_process_step(p0, p1, dv1, w, rel, asv),
        spec_process_step(p1, p2, dv2, w, rel, asv),
    ensures
        p2.ribs_in@ == p1.ribs_in@,
        p2.local_rib@ == p1.local_rib@,
        p2.ribs_out@ == p1.ribs_out@,
        dv2 == dv1,
{
    let ribs_in1 = spec_nested_insert(p0.ribs_in@, w.next_hop_asn, w.prefix, w);
    let ribs_in2 = spec_nested_insert(p1.ribs_in@, w.next_hop_asn, w.prefix, w);
    assert(ribs_in1[w.next_hop_asn] =~= ribs_in1[w.next_hop_asn].insert(w.prefix, w));
    assert(ribs_in2 =~= ribs_in1);
    assert(p2.ribs_in@ == p1.ribs_in@);
    if exists|c: AnnView| spec_is_candidate(ribs_in1, w.prefix, c) {
        let b1 = choose|b: AnnView|
            {
                &&& #[trigger] spec_is_best(&p0.extension, ribs_in1, w.prefix, asv, b)
                &&& {
                    let bp = spec_prepend_self(b, p0.asn);
                    let keep = bp.only_to_customers != Some(true) || rel is Customers
                        || rel is Origin;
                    &&& p1.local_rib@ == p0.local_rib@.insert(w.prefix, bp)
                    &&& dv1 == if keep {
                        spec_outgoing(&p0.extension, bp, asv, p0.asn)
                    } else {
                        Seq::<(ASN, AnnView, Relationships)>::empty()
                    }
                    &&& p1.ribs_out@ == spec_ribs_out_after(p0.ribs_out@, dv1)
                }
            };
        let b2 = choose|b: AnnView|
            {
                &&& #[trigger] spec_is_best(&p1.extension, ribs_in2, w.prefix, asv, b)
                &&& {
                    let bp = spec_prepend_self(b, p1.asn);
                    let keep = bp.only_to_customers != Some(true) || rel is Customers
                        || rel is Origin;
                    &&& p2.local_rib@ == p1.local_rib@.insert(w.prefix, bp)
                    &&& dv2 == if keep {
                        spec_outgoing(&p1.extension, bp, asv, p1.asn)
                    } else {
                        Seq::<(ASN, AnnView, Relationships)>::empty()
                    }
                    &&& p2.ribs_out@ == spec_ribs_out_after(p1.ribs_out@, dv2)
                }
            };
        assert(spec_is_best(&p0.extension, ribs_in1, w.prefix, asv, b1));
        assert(spec_is_best(&p1.extension, ribs_in2, w.prefix, asv, b2));
        assert(p1.extension == p0.extension && p1.asn == p0.asn);
        lemma_best_unique(&p0.extension, ribs_in1, w.prefix, asv, b1, b2);
        let bp = spec_prepend_self(b1, p0.asn);
        assert(p1.local_rib@ == p0.local_rib@.insert(w.prefix, bp));
        assert(p2.local_rib@ == p1.local_rib@.insert(w.prefix, bp));
        assert(p2.local_rib@ =~= p1.local_rib@);
        assert(dv2 == dv1);
        // The best route keeps the withdrawn prefix, so every delivery
        // carries it.
        assert(b1.prefix == w.prefix) by {
            let nh = choose|nh: ASN|
                #[trigger] ribs_in1.contains_key(nh) && ribs_in1[nh].contains_key(w.prefix)
                    && ribs_in1[nh][w.prefix] == b1 && !b1.withdraw;
            if nh == w.next_hop_asn {
                assert(ribs_in1[nh][w.prefix] == w || (p0.ribs_in@.contains_key(nh)
                    && p0.ribs_in@[nh].contains_key(w.prefix) && ribs_in1[nh][w.prefix]
                    == p0.ribs_in@[nh][w.prefix]));
            } else {
                assert(p0.ribs_in@.contains_key(nh) && p0.ribs_in@[nh].contains_key(w.prefix));
            }
        }
        assert(bp.prefix == w.prefix);
        assert forall|i: int| 0 <= i < dv1.len() implies (#[trigger] dv1[i]).1.prefix
            == w.prefix by {
            lemma_outgoing_prefix(&p0.extension, bp, asv, p0.asn);
        }
        lemma_after_frame(p0.ribs_out@, dv1, w.prefix);
        lemma_after_congruent(p1.ribs_out@, p0.ribs_out@, dv1, w.prefix);
        assert(p2.ribs_out@ =~~= p1.ribs_out@);
    } else {
        assert(p1.local_rib@ == p0.local_rib@.remove(w.prefix));
        assert(p2.local_rib@ == p1.local_rib@.remove(w.prefix));
        assert(p2.local_rib@ =~= p1.local_rib@);
        assert(dv2 == dv1);
        assert(spec_withdraw_ann(w, p0.asn).prefix == w.prefix);
        assert forall|i: int| 0 <= i < dv1.len() implies (#[trigger] dv1[i]).1.prefix
            == w.prefix by {
            lemma_outgoing_prefix(&p0.extension, spec_withdraw_ann(w, p0.asn), asv, p0.asn);
        }
        lemma_after_frame(p0.ribs_out@, dv1, w.prefix);
        lemma_after_congruent(p1.ribs_out@, p0.ribs_out@, dv1, w.prefix);
        assert(p2.ribs_out@ =~~= p1.ribs_out@);
    }
}

/// Seeding the same non-withdrawn announcement twice leaves the state
/// exactly as after the first seeding.
pub proof fn lemma_seed_idempotent(p0: Policy, p1: Policy, p2: Policy, a: AnnView)
    requires
        !a.withdraw,
        spec_seed_step(p0, p1, a),
        spec_seed_step(p1, p2, a),
    ensures
        p2.local_rib@ == p1.local_rib@,
        p2.ribs_in@ == p1.ribs_in@,
        p2.ribs_out@ == p1.ribs_out@,
        p2.recv_q@ == p1.recv_q@,
{
    assert(p1.asn == p0.asn);
    assert(p2.local_rib@ =~= p1.local_rib@);
}

/// Every route placed into the local RIB by processing was selected from
/// the RIBs-in: it is a stored candidate that the policy's order prefers to
/// every other stored candidate, with the owning ASN prepended.
pub proof fn lemma_local_rib_from_best(
    pre: Policy,
    post: Policy,
    dv: Seq<(ASN, AnnView, Relationships)>,
    a: AnnView,
    rel: Relationships,
    asv: ASView,
)
    requires
        spec_process_step(pre, post, dv, a, rel, asv),
        !a.withdraw,
    ensures
        exists|b: AnnView|
            #[trigger] spec_is_best(&pre.extension, post.ribs_in@, a.prefix, asv, b)
                && post.local_rib@ == pre.local_rib@.insert(a.prefix, spec_prepend_self(b, pre.asn)),
{
    let ribs_in1 = spec_nested_insert(pre.ribs_in@, a.next_hop_asn, a.prefix, a);
    assert(ribs_in1.contains_key(a.next_hop_asn));
    assert(ribs_in1[a.next_hop_asn].contains_key(a.prefix));
    assert(ribs_in1[a.next_hop_asn][a.prefix] == a);
    assert(spec_is_candidate(ribs_in1, a.prefix, a));
}


/// Ghost view of a policy's tables, identity and extension.
#[verifier::ext_equal]
pub ghost struct PolicyView {
    pub local_rib: Map<Prefix, AnnView>,
    pub recv_q: Seq<(AnnView, Relationships)>,
    pub ribs_in: Map<ASN, Map<Prefix, AnnView>>,
    pub ribs_out: Map<ASN, Map<Prefix, AnnView>>,
    pub settings: Settings,
    pub asn: ASN,
    pub extension: PolicyExtension,
}

impl View for Policy {
    type V = PolicyView;

    open spec fn view(&self) -> PolicyView {
        PolicyView {
            local_rib: self.local_rib@,
            recv_q: self.recv_q@.map_values(|ai: AnnInfo| (ai.ann@, ai.recv_relationship)),
            ribs_in: self.ribs_in@,
            ribs_out: self.ribs_out@,
            settings: self.settings,
            asn: self.asn,
            extension: self.extension,
        }
    }
}

/// The receive queue as (view, relationship) pairs.
pub open spec fn spec_queue_view(q: Seq<AnnInfo>) -> Seq<(AnnView, Relationships)> {
    q.map_values(|ai: AnnInfo| (ai.ann@, ai.recv_relationship))
}

/// Two policies agree on tables, queue, identity and extension.
pub open spec fn spec_state_eq(p1: Policy, p2: Policy) -> bool {
    &&& p1.local_rib@ == p2.local_rib@
    &&& p1.ribs_in@ == p2.ribs_in@
    &&& p1.ribs_out@ == p2.ribs_out@
    &&& p1.recv_q@ == p2.recv_q@
    &&& p1.settings == p2.settings
    &&& p1.asn == p2.asn
    &&& p1.extension == p2.extension
}

/// Processing a queue front to back: entries failing validation are dropped,
/// each accepted entry takes one processing step, and the deliveries
/// concatenate in order.
pub open spec fn spec_process_queue(
    pre: Policy,
    post: Policy,
    dv: Seq<(ASN, AnnView, Relationships)>,
    q: Seq<(AnnView, Relationships)>,
    asv: ASView,
) -> bool
    decreases q.len(),
{
    if q.len() == 0 {
        spec_state_eq(post, pre) && dv =~= Seq::<(ASN, AnnView, Relationships)>::empty()
    } else {
        let a = q[0].0;
        let rel = q[0].1;
        if spec_ext_validate(&pre.extension, a, rel, asv) {
            exists|mid: Policy, dv1: Seq<(ASN, AnnView, Relationships)>|
                {
                    &&& #[trigger] spec_process_step(pre, mid, dv1, a, rel, asv)
                    &&& dv1.len() <= dv.len()
                    &&& dv1 == dv.take(dv1.len() as int)
                    &&& spec_process_queue(mid, post, dv.skip(dv1.len() as int), q.drop_first(), asv)
                }
        } else {
            spec_process_queue(pre, post, dv, q.drop_first(), asv)
        }
    }
}

/// A processing step only reads the parts of the starting state that state
/// equality fixes.
proof fn lemma_step_pre_eq(
    p0: Policy,
    p1: Policy,
    p2: Policy,
    dv: Seq<(ASN, AnnView, Relationships)>,
    a: AnnView,
    rel: Relationships,
    asv: ASView,
)
    requires
        spec_state_eq(p1, p0),
        spec_process_step(p1, p2, dv, a, rel, asv),
    ensures
        spec_process_step(p0, p2, dv, a, rel, asv),
{
}

/// Extend a processed queue by one more entry at the back.
proof fn lemma_queue_snoc(
    p0: Policy,
    p1: Policy,
    p2: Policy,
    dv1: Seq<(ASN, AnnView, Relationships)>,
    dv2: Seq<(ASN, AnnView, Relationships)>,
    q: Seq<(AnnView, Relationships)>,
    item: (AnnView, Relationships),
    asv: ASView,
)
    requires
        spec_process_queue(p0, p1, dv1, q, asv),
        if spec_ext_validate(&p1.extension, item.0, item.1, asv) {
            spec_process_step(p1, p2, dv2, item.0, item.1, asv)
        } else {
            spec_state_eq(p2, p1) && dv2 =~= Seq::<(ASN, AnnView, Relationships)>::empty()
        },
    ensures
        spec_process_queue(p0, p2, dv1 + dv2, q.push(item), asv),
    decreases q.len(),
{
    let qq = q.push(item);
    let dvv = dv1 + dv2;
    assert(qq[0] == if q.len() == 0 {
        item
    } else {
        q[0]
    });
    if q.len() == 0 {
        assert(spec_state_eq(p1, p0));
        assert(p1.extension == p0.extension);
        assert(qq.drop_first() =~= Seq::<(AnnView, Relationships)>::empty());
        assert(dv1 =~= Seq::<(ASN, AnnView, Relationships)>::empty());
        assert(dvv =~= dv2);
        if spec_ext_validate(&p0.extension, item.0, item.1, asv) {
            lemma_step_pre_eq(p0, p1, p2, dv2, item.0, item.1, asv);
            assert(dv2 == dvv.take(dv2.len() as int)) by {
                assert(dvv.take(dv2.len() as int) =~= dv2);
            }
            assert(dvv.skip(dv2.len() as int) =~= Seq::<(ASN, AnnView, Relationships)>::empty());
            assert(spec_state_eq(p2, p2));
            assert(spec_process_queue(p2, p2, dvv.skip(dv2.len() as int), qq.drop_first(), asv));
            assert(spec_process_step(p0, p2, dv2, qq[0].0, qq[0].1, asv));
        } else {
            assert(spec_state_eq(p2, p0)) by {
                assert(spec_state_eq(p2, p1) && spec_state_eq(p1, p0));
            }
            assert(dvv =~= Seq::<(ASN, AnnView, Relationships)>::empty());
            assert(spec_process_queue(p0, p2, dvv, qq.drop_first(), asv));
        }
    } else {
        assert(qq.drop_first() =~= q.drop_first().push(item));
        if spec_ext_validate(&p0.extension, q[0].0, q[0].1, asv) {
            let (mid, dva): (Policy, Seq<(ASN, AnnView, Relationships)>) = choose|
                mid: Policy,
                dva: Seq<(ASN, AnnView, Relationships)>,
            |
                {
                    &&& #[trigger] spec_process_step(p0, mid, dva, q[0].0, q[0].1, asv)
                    &&& dva.len() <= dv1.len()
                    &&& dva == dv1.take(dva.len() as int)
                    &&& spec_process_queue(mid, p1, dv1.skip(dva.len() as int), q.drop_first(), asv)
                };
            let dvb = dv1.skip(dva.len() as int);
            lemma_queue_snoc(mid, p1, p2, dvb, dv2, q.drop_first(), item, asv);
            assert(dva == dvv.take(dva.len() as int)) by {
                assert(dvv.take(dva.len() as int) =~= dv1.take(dva.len() as int));
            }
            assert(dvv.skip(dva.len() as int) =~= dvb + dv2);
            assert(spec_process_step(p0, mid, dva, qq[0].0, qq[0].1, asv));
            assert(spec_process_queue(mid, p2, dvv.skip(dva.len() as int), qq.drop_first(), asv));
        } else {
            lemma_queue_snoc(p0, p1, p2, dv1, dv2, q.drop_first(), item, asv);
        }
    }
}

/// A freshly created plain-BGP policy for an AS: empty tables and queue,
/// the default settings tag, and the plain-BGP extension.
pub open spec fn spec_fresh_bgp_policy(p: Policy, asn: ASN) -> bool {
    &&& p.asn == asn
    &&& p.settings is BaseDefense
    &&& p.extension is Bgp
    &&& p.local_rib@ =~= Map::<Prefix, AnnView>::empty()
    &&& p.ribs_in@ =~= Map::<ASN, Map<Prefix, AnnView>>::empty()
    &&& p.ribs_out@ =~= Map::<ASN, Map<Prefix, AnnView>>::empty()
    &&& p.recv_q@.len() == 0
}

/// One policy per AS, keyed by ASN.
#[derive(Debug)]
pub struct PolicyStore {
    policies: AssocMap<ASN, Policy>,
}

impl PolicyStore {
    /// The mapping from ASNs to policy views.
    pub closed spec fn view(&self) -> Map<ASN, PolicyView> {
        self.policies@
    }

    /// The stored policies, in insertion order.
    pub closed spec fn pairs(&self) -> Seq<(ASN, Policy)> {
        self.policies.pairs()
    }

    /// Every policy is stored under its own ASN, well formed, and with its
    /// route tables satisfying the storage invariants.
    pub closed spec fn wf(&self) -> bool {
        &&& self.policies.wf()
        &&& forall|i: int|
            0 <= i < self.pairs().len() ==> {
                let p = (#[trigger] self.pairs()[i]).1;
                &&& p.wf()
                &&& p.asn == self.pairs()[i].0
                &&& spec_ribs_in_ok(p.ribs_in@, p.asn)
                &&& spec_local_rib_ok(p.local_rib@, p.asn)
            }
    }

    /// Ground link between pairs and the view.
    pub proof fn lemma_entry_in_view(&self, i: int)
        requires
            self.wf(),
            0 <= i < self.pairs().len(),
        ensures
            self@.contains_key(self.pairs()[i].0),
            self@[self.pairs()[i].0] == self.pairs()[i].1@,
            self.pairs()[i].1.wf(),
            self.pairs()[i].1.asn == self.pairs()[i].0,
            spec_ribs_in_ok(self.pairs()[i].1.ribs_in@, self.pairs()[i].0),
            spec_local_rib_ok(self.pairs()[i].1.local_rib@, self.pairs()[i].0),
    {
        self.policies.lemma_entry_in_view(i);
    }

    /// A key in the view is held by some entry.
    pub proof fn lemma_view_in_entries(&self, k: ASN)
        requires
            self@.contains_key(k),
        ensures
            exists|i: int| 0 <= i < self.pairs().len() && (#[trigger] self.pairs()[i]).0 == k,
    {
        assert(self.pairs() == self.policies.pairs());
        self.policies.lemma_view_in_entries(k);
    }

    /// An empty store.
    pub fn new() -> (r: PolicyStore)
        ensures
            r.wf(),
            r@ =~= Map::<ASN, PolicyView>::empty(),
            r.pairs().len() == 0,
    {
        PolicyStore { policies: AssocMap::new() }
    }

    /// Number of policies.
    pub fn len(&self) -> (r: usize)
        ensures
            r == self.pairs().len(),
    {
        self.policies.len()
    }

    /// The ASN of the policy at an index.
    pub fn asn_at(&self, i: usize) -> (r: ASN)
        requires
            i < self.pairs().len(),
        ensures
            r == self.pairs()[i as int].0,
    {
        self.policies.key_at(i)
    }

    /// The policy at an index.
    pub fn policy_at(&self, i: usize) -> (r: &Policy)
        requires
            i < self.pairs().len(),
        ensures
            *r == self.pairs()[i as int].1,
    {
        self.policies.value_at(i)
    }

    /// Make sure an AS has a policy, creating a plain-BGP one if absent.
    pub fn create_policy(&mut self, asn: ASN)
        requires
            old(self).wf(),
        ensures
            final(self).wf(),
            final(self)@.contains_key(asn),
            forall|a: ASN|
                #[trigger] final(self)@.contains_key(a) <==> (old(self)@.contains_key(a) || a
                    == asn),
            forall|a: ASN|
                old(self)@.contains_key(a) ==> final(self)@[a] == #[trigger] old(self)@[a],
            forall|i: int|
                0 <= i < final(self).pairs().len() ==> ((exists|j: int|
                    0 <= j < old(self).pairs().len() && old(self).pairs()[j] == (#[trigger] final(self).pairs()[i])) || (final(self).pairs()[i].0 == asn && spec_fresh_bgp_policy(
                    final(self).pairs()[i].1,
                    asn,
                ))),
    {
        if !self.policies.contains_key(&asn) {
            let ghost pre = self.policies;
            let p = Policy::new(asn);
            let ghost pv = p;
            self.policies.insert(asn, p);
            proof {
                assert(spec_fresh_bgp_policy(pv, asn));
                assert forall|i: int| 0 <= i < self.pairs().len() implies {
                    let pp = (#[trigger] self.pairs()[i]).1;
                    &&& pp.wf()
                    &&& pp.asn == self.pairs()[i].0
                    &&& spec_ribs_in_ok(pp.ribs_in@, pp.asn)
                    &&& spec_local_rib_ok(pp.local_rib@, pp.asn)
                } by {
                    if self.pairs()[i] != (asn, self.pairs()[i].1)
                        || self.pairs()[i].1.asn != asn {
                        let j = choose|j: int|
                            0 <= j < pre.pairs().len() && pre.pairs()[j] == (
                            #[trigger] self.pairs()[i]);
                    } else {
                        if exists|j: int|
                            0 <= j < pre.pairs().len() && pre.pairs()[j] == (
                            #[trigger] self.pairs()[i]) {
                            let j = choose|j: int|
                                0 <= j < pre.pairs().len() && pre.pairs()[j] == (
                                #[trigger] self.pairs()[i]);
                        }
                    }
                }
                assert forall|i: int| 0 <= i < self.pairs().len() implies ((exists|j: int|
                    0 <= j < pre.pairs().len() && pre.pairs()[j] == (#[trigger] self.pairs()[i]))
                    || (self.pairs()[i].0 == asn && spec_fresh_bgp_policy(
                    self.pairs()[i].1,
                    asn,
                ))) by {
                    if !(exists|j: int|
                        0 <= j < pre.pairs().len() && pre.pairs()[j] == (
                        #[trigger] self.pairs()[i])) {
                        assert(self.pairs()[i] == (asn, pv));
                    }
                }
            }
        } else {
            proof {
                assert forall|i: int| 0 <= i < self.pairs().len() implies ((exists|j: int|
                    0 <= j < old(self).pairs().len() && old(self).pairs()[j] == (
                    #[trigger] self.pairs()[i])) || (self.pairs()[i].0 == asn
                    && spec_fresh_bgp_policy(self.pairs()[i].1, asn))) by {
                    assert(old(self).pairs()[i] == self.pairs()[i]);
                }
            }
        }
    }

    /// The policy of an AS.
    pub fn get(&self, asn: &ASN) -> (r: Option<&Policy>)
        requires
            self.wf(),
        ensures
            match r {
                Some(p) => self@.contains_key(*asn) && p@ == self@[*asn] && p.wf() && p.asn == *asn
                    && spec_ribs_in_ok(p.ribs_in@, p.asn) && spec_local_rib_ok(
                    p.local_rib@,
                    p.asn,
                ),
                None => !self@.contains_key(*asn),
            },
    {
        proof {
            if self@.contains_key(*asn) {
                self.policies.lemma_view_in_entries(*asn);
                let i = choose|i: int|
                    0 <= i < self.policies.pairs().len() && (
                    #[trigger] self.policies.pairs()[i]).0 == *asn;
                self.policies.lemma_entry_in_view(i);
            }
        }
        match self.policies.get(asn) {
            Some(p) => {
                proof {
                    let j = choose|j: int|
                        0 <= j < self.policies.pairs().len()
                            && #[trigger] self.policies.pairs()[j] == (*asn, *p);
                    assert(self.pairs()[j].1.wf());
                }
                Some(p)
            },
            None => None,
        }
    }

    /// A mutable borrow of the policy of an AS; the store invariant holds
    /// again provided the caller leaves the policy well formed under its
    /// own ASN.
    pub fn get_mut(&mut self, asn: &ASN) -> (r: Option<&mut Policy>)
        requires
            old(self).wf(),
        ensures
            match r {
                Some(p) => {
                    &&& old(self)@.contains_key(*asn)
                    &&& (*p)@ == old(self)@[*asn]
                    &&& p.wf() && p.asn == *asn && spec_ribs_in_ok(p.ribs_in@, p.asn)
                        && spec_local_rib_ok(p.local_rib@, p.asn)
                    &&& final(self)@ =~= old(self)@.insert(*asn, final(p)@)
                    &&& final(self).pairs().len() == old(self).pairs().len()
                    &&& forall|i: int|
                        0 <= i < final(self).pairs().len() ==> (#[trigger] final(self).pairs()[i]).0 == old(self).pairs()[i].0
                    &&& ((final(p).wf() && final(p).asn == *asn && spec_ribs_in_ok(
                        final(p).ribs_in@,
                        *asn,
                    ) && spec_local_rib_ok(final(p).local_rib@, *asn)) ==> final(self).wf())
                },
                None => {
                    &&& !old(self)@.contains_key(*asn)
                    &&& final(self)@ == old(self)@
                    &&& final(self).wf()
                    &&& final(self).pairs() == old(self).pairs()
                },
            },
    {
        let ghost pre = self.policies;
        proof {
            if self.policies@.contains_key(*asn) {
                self.policies.lemma_view_in_entries(*asn);
                let i = choose|i: int|
                    0 <= i < self.policies.pairs().len() && (
                    #[trigger] self.policies.pairs()[i]).0 == *asn;
                self.policies.lemma_entry_in_view(i);
            }
        }
        match self.policies.get_mut(asn) {
            Some(p) => {
                proof {
                    let j = choose|j: int|
                        0 <= j < pre.pairs().len() && #[trigger] pre.pairs()[j] == (*asn, *p);
                    assert(pre.pairs()[j].1.wf());
                }
                Some(p)
            },
            None => None,
        }
    }
}

} // verus!
