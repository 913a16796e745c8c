//! Reference attack scenarios: seeds, ROAs and success classification.

use vstd::prelude::*;

use crate::announcement::{AnnView, Announcement, ASN};
use crate::as_graph::ASGraph;
use crate::engine::{spec_seed_fold, spec_seeds_view, SimulationEngine};
use crate::policy::{Policy, PolicyStore};
use crate::prefix::Prefix;
use crate::route_validator::{RouteValidator, ROA};
use crate::shared::{Relationships, Timestamps};
use crate::vecs::{clone_u32_vec, contains_asn};

verus! {

/// How many of the stored policies hold a route for a prefix.
pub open spec fn spec_count_routes(pairs: Seq<(ASN, Policy)>, prefix: Prefix) -> nat
    decreases pairs.len(),
{
    if pairs.len() == 0 {
        0
    } else {
        spec_count_routes(pairs.drop_last(), prefix) + (if pairs.last().1.local_rib@.contains_key(
            prefix,
        ) {
            1nat
        } else {
            0nat
        })
    }
}

/// How many of the stored policies hold a route for a prefix whose origin
/// lies in a given set.
pub open spec fn spec_count_routes_from(
    pairs: Seq<(ASN, Policy)>,
    prefix: Prefix,
    origins: Seq<ASN>,
) -> nat
    decreases pairs.len(),
{
    if pairs.len() == 0 {
        0
    } else {
        spec_count_routes_from(pairs.drop_last(), prefix, origins) + (if pairs.last().1.local_rib@.contains_key(
            prefix,
        ) && origins.contains(pairs.last().1.local_rib@[prefix].spec_origin()) {
            1nat
        } else {
            0nat
        })
    }
}

/// Count the ASes holding any route for a prefix.
pub fn count_routes(store: &PolicyStore, prefix: &Prefix) -> (r: usize)
    requires
        store.wf(),
    ensures
        r == spec_count_routes(store.pairs(), *prefix),
        r <= store.pairs().len(),
{
    let n = store.len();
    let mut count: usize = 0;
    let mut i: usize = 0;
    while i < n
        invariant
            store.wf(),
            i <= n,
            n == store.pairs().len(),
            count == spec_count_routes(store.pairs().take(i as int), *prefix),
            count <= i,
        decreases n - i,
    {
        let p = store.policy_at(i);
        proof {
            assert(store.pairs().take(i as int + 1).drop_last() =~= store.pairs().take(i as int));
            assert(store.pairs().take(i as int + 1).last() == store.pairs()[i as int]);
        }
        if p.local_rib.contains_key(prefix) {
            count = count + 1;
        }
        i = i + 1;
    }
    proof {
        assert(store.pairs().take(n as int) =~= store.pairs());
    }
    count
}

/// Count the ASes holding a route for a prefix whose origin lies in a set.
pub fn count_routes_from(store: &PolicyStore, prefix: &Prefix, origins: &Vec<ASN>) -> (r: usize)
    requires
        store.wf(),
    ensures
        r == spec_count_routes_from(store.pairs(), *prefix, origins@),
        r <= store.pairs().len(),
{
    let n = store.len();
    let mut count: usize = 0;
    let mut i: usize = 0;
    while i < n
        invariant
            store.wf(),
            i <= n,
            n == store.pairs().len(),
            count == spec_count_routes_from(store.pairs().take(i as int), *prefix, origins@),
            count <= i,
        decreases n - i,
    {
        let p = store.policy_at(i);
        proof {
            store.lemma_entry_in_view(i as int);
            assert(store.pairs().take(i as int + 1).drop_last() =~= store.pairs().take(i as int));
            assert(store.pairs().take(i as int + 1).last() == store.pairs()[i as int]);
        }
        let hit = match p.local_rib.get(prefix) {
            Some(ann) => contains_asn(origins, ann.origin()),
            None => false,
        };
        if hit {
            count = count + 1;
        }
        i = i + 1;
    }
    proof {
        assert(store.pairs().take(n as int) =~= store.pairs());
    }
    count
}

/// The fresh announcement a scenario seeds at an origin for a prefix.
pub open spec fn spec_scenario_seed(prefix: Prefix, origin: ASN) -> AnnView {
    AnnView {
        prefix,
        as_path: Seq::<ASN>::empty(),
        next_hop_asn: origin,
        recv_relationship: Relationships::Origin,
        timestamp: Timestamps::Victim,
        withdraw: false,
        bgpsec_next_asn: None,
        bgpsec_as_path: None,
        only_to_customers: None,
        rovpp_blackhole: None,
        rost_ids: None,
    }
}

/// The benign reference scenario: one legitimate /24, no attacker; success
/// means at least four fifths of the ASes holding the route.
#[derive(Debug, Clone)]
pub struct LegitimatePrefixOnly {
    pub legitimate_origin_asns: Vec<ASN>,
}

impl LegitimatePrefixOnly {
    pub fn new(legitimate_origin_asns: Vec<ASN>) -> (r: LegitimatePrefixOnly)
        ensures
            r.legitimate_origin_asns == legitimate_origin_asns,
    {
        LegitimatePrefixOnly { legitimate_origin_asns }
    }

    /// The prefix the legitimate origin announces.
    pub fn legitimate_prefix(&self) -> (r: Prefix)
        ensures
            r.wf(),
            !r.v6,
            r.len == 24,
            r.addr == 0x0a00_0000,
    {
        Prefix::v4(10, 0, 0, 0, 24)
    }

    pub fn name(&self) -> &'static str {
        "LegitimatePrefixOnly"
    }

    /// No attackers take part.
    pub fn get_attacker_asns(&self, _as_graph: &ASGraph) -> (r: Vec<ASN>)
        ensures
            r@.len() == 0,
    {
        Vec::new()
    }

    /// The configured legitimate origins.
    pub fn get_legitimate_origin_asns(&self, _as_graph: &ASGraph) -> (r: Vec<ASN>)
        ensures
            r@ == self.legitimate_origin_asns@,
    {
        clone_u32_vec(&self.legitimate_origin_asns)
    }

    /// One fresh announcement of the legitimate prefix per origin.
    pub fn get_seed_asn_ann_dict(&self, _as_graph: &ASGraph) -> (r: Vec<(ASN, Announcement)>)
        ensures
            r@.len() == self.legitimate_origin_asns@.len(),
            forall|i: int|
                0 <= i < r@.len() ==> {
                    &&& (#[trigger] r@[i]).0 == self.legitimate_origin_asns@[i]
                    &&& r@[i].1@ == spec_scenario_seed(
                        Prefix { v6: false, addr: 0x0a00_0000, len: 24 },
                        self.legitimate_origin_asns@[i],
                    )
                    &&& r@[i].1@.prefix.wf()
                    &&& r@[i].1@.as_path.len() == 0
                    &&& !r@[i].1@.withdraw
                },
    {
        let prefix = self.legitimate_prefix();
        let mut r: Vec<(ASN, Announcement)> = Vec::new();
        let mut i: usize = 0;
        while i < self.legitimate_origin_asns.len()
            invariant
                i <= self.legitimate_origin_asns@.len(),
                r@.len() == i,
                prefix.wf(),
                prefix == (Prefix { v6: false, addr: 0x0a00_0000, len: 24 }),
                forall|j: int|
                    0 <= j < r@.len() ==> {
                        &&& (#[trigger] r@[j]).0 == self.legitimate_origin_asns@[j]
                        &&& r@[j].1@ == spec_scenario_seed(
                            Prefix { v6: false, addr: 0x0a00_0000, len: 24 },
                            self.legitimate_origin_asns@[j],
                        )
                        &&& r@[j].1@.prefix.wf()
                        &&& r@[j].1@.as_path.len() == 0
                        &&& !r@[j].1@.withdraw
                    },
            decreases self.legitimate_origin_asns@.len() - i,
        {
            let asn = self.legitimate_origin_asns[i];
            let ann = Announcement::new(prefix, asn, Relationships::Origin);
            r.push((asn, ann));
            i = i + 1;
        }
        r
    }

    /// One ROA authorizing each origin for the legitimate prefix, maximum
    /// length 24.
    pub fn get_roas(&self, _as_graph: &ASGraph) -> (r: Vec<ROA>)
        ensures
            r@.len() == self.legitimate_origin_asns@.len(),
            forall|i: int|
                0 <= i < r@.len() ==> {
                    &&& (#[trigger] r@[i]).prefix == (Prefix {
                        v6: false,
                        addr: 0x0a00_0000,
                        len: 24,
                    })
                    &&& r@[i].origin == self.legitimate_origin_asns@[i]
                    &&& r@[i].max_length == 24
                    &&& r@[i].ta is None
                    &&& r@[i].prefix.wf()
                },
    {
        let prefix = self.legitimate_prefix();
        let mut r: Vec<ROA> = Vec::new();
        let mut i: usize = 0;
        while i < self.legitimate_origin_asns.len()
            invariant
                i <= self.legitimate_origin_asns@.len(),
                r@.len() == i,
                prefix.wf(),
                prefix == (Prefix { v6: false, addr: 0x0a00_0000, len: 24 }),
                forall|j: int|
                    0 <= j < r@.len() ==> {
                        &&& (#[trigger] r@[j]).prefix == (Prefix {
                            v6: false,
                            addr: 0x0a00_0000,
                            len: 24,
                        })
                        &&& r@[j].origin == self.legitimate_origin_asns@[j]
                        &&& r@[j].max_length == 24
                        &&& r@[j].ta is None
                        &&& r@[j].prefix.wf()
                    },
            decreases self.legitimate_origin_asns@.len() - i,
        {
            let roa = ROA::new(prefix, self.legitimate_origin_asns[i], Some(24));
            r.push(roa);
            i = i + 1;
        }
        r
    }

    /// The announcements this scenario seeds, as (origin, view) pairs.
    pub open spec fn spec_seed_views(&self) -> Seq<(ASN, AnnView)> {
        Seq::new(
            self.legitimate_origin_asns@.len(),
            |i: int|
                (
                    self.legitimate_origin_asns@[i],
                    spec_scenario_seed(
                        Prefix { v6: false, addr: 0x0a00_0000, len: 24 },
                        self.legitimate_origin_asns@[i],
                    ),
                ),
        )
    }

    /// Load one ROA per origin for the legitimate prefix and set the engine
    /// up with this scenario's seeds: every origin's local RIB ends holding
    /// exactly its seeded route, and every other table is cleared.
    pub fn setup_engine(&self, engine: &mut SimulationEngine, route_validator: &mut RouteValidator)
        requires
            old(engine).wf(),
            old(route_validator).wf(),
        ensures
            final(engine).wf(),
            final(route_validator).wf(),
            final(route_validator)@.len() == old(route_validator)@.len()
                + self.legitimate_origin_asns@.len(),
            forall|i: int|
                0 <= i < old(route_validator)@.len() ==> #[trigger] final(route_validator)@[i]
                    == old(route_validator)@[i],
            forall|i: int|
                0 <= i < self.legitimate_origin_asns@.len() ==> {
                    let roa = #[trigger] final(route_validator)@[old(route_validator)@.len() + i];
                    &&& roa.prefix == (Prefix { v6: false, addr: 0x0a00_0000, len: 24 })
                    &&& roa.origin == self.legitimate_origin_asns@[i]
                    &&& roa.max_length == 24
                    &&& roa.ta is None
                },
            forall|a: ASN|
                final(engine).policy_store@.contains_key(a) <==> old(
                    engine,
                ).policy_store@.contains_key(a),
            forall|a: ASN|
                #[trigger] old(engine).policy_store@.contains_key(a) ==> {
                    let pv = final(engine).policy_store@[a];
                    &&& pv.local_rib == spec_seed_fold(self.spec_seed_views(), a)
                    &&& pv.ribs_in =~= Map::<ASN, Map<Prefix, AnnView>>::empty()
                    &&& pv.ribs_out =~= Map::<ASN, Map<Prefix, AnnView>>::empty()
                },
    {
        let mut roas = self.get_roas(&engine.as_graph);
        let ghost roas0 = roas@;
        let ghost v0 = route_validator@;
        let n0 = roas.len();
        let mut k: usize = 0;
        while roas.len() > 0
            invariant
                route_validator.wf(),
                k + roas@.len() == roas0.len(),
                roas0.len() == n0,
                k <= n0,
                roas@ =~= roas0.skip(k as int),
                route_validator@ =~= v0 + roas0.take(k as int),
                forall|j: int| 0 <= j < roas0.len() ==> (#[trigger] roas0[j]).prefix.wf(),
            decreases roas@.len(),
        {
            let ghost pre = roas@;
            let roa = roas.remove(0);
            proof {
                assert(roa == roas0[k as int]);
                assert(roas@ =~= roas0.skip(k as int + 1));
                assert((v0 + roas0.take(k as int)).push(roa) =~= v0 + roas0.take(k as int + 1));
            }
            route_validator.add_roa(roa);
            k = k + 1;
        }
        proof {
            assert(roas0.take(roas0.len() as int) =~= roas0);
            assert(route_validator@ =~= v0 + roas0);
        }
        let seeds = self.get_seed_asn_ann_dict(&engine.as_graph);
        proof {
            assert(spec_seeds_view(seeds@) =~= self.spec_seed_views());
        }
        engine.setup(seeds);
    }

    /// Success: at least four fifths of the ASes hold the route, in exact
    /// integer arithmetic over the stored policies.
    pub fn is_successful(&self, engine: &SimulationEngine) -> (r: bool)
        requires
            engine.wf(),
        ensures
            r == (engine.policy_store.pairs().len() > 0 && 5 * spec_count_routes(
                engine.policy_store.pairs(),
                Prefix { v6: false, addr: 0x0a00_0000, len: 24 },
            ) >= 4 * engine.policy_store.pairs().len()),
    {
        let prefix = self.legitimate_prefix();
        let count = count_routes(&engine.policy_store, &prefix);
        let total = engine.policy_store.len();
        if total == 0 {
            return false;
        }
        // count / total >= 4 / 5, in exact integer arithmetic.
        let lhs = count as u128 * 5;
        let rhs = total as u128 * 4;
        lhs >= rhs
    }
}

/// The subprefix hijack scenario: the victim announces a /24, the attacker a
/// more specific /25 of it; success means more than half of the ASes route
/// the subprefix toward the attacker.
#[derive(Debug, Clone)]
pub struct SubprefixHijack {
    pub attacker_asns: Vec<ASN>,
    pub legitimate_origin_asns: Vec<ASN>,
    pub legitimate_prefix: Prefix,
    pub hijacked_prefix: Prefix,
}

impl SubprefixHijack {
    pub fn new(attacker_asns: Vec<ASN>, legitimate_origin_asns: Vec<ASN>) -> (r: SubprefixHijack)
        ensures
            r.attacker_asns == attacker_asns,
            r.legitimate_origin_asns == legitimate_origin_asns,
            r.legitimate_prefix.wf(),
            r.hijacked_prefix.wf(),
            r.legitimate_prefix.len == 24,
            r.hijacked_prefix.len == 25,
            Prefix::spec_covers(r.legitimate_prefix, r.hijacked_prefix),
    {
        let legitimate_prefix = Prefix::v4(1, 2, 3, 0, 24);
        let hijacked_prefix = Prefix::v4(1, 2, 3, 0, 25);
        proof {
            assert(Prefix::spec_net_value(legitimate_prefix.addr, 32, 24) == Prefix::spec_net_value(
                hijacked_prefix.addr,
                32,
                24,
            ));
            assert(Prefix::spec_covers(legitimate_prefix, hijacked_prefix));
        }
        SubprefixHijack { attacker_asns, legitimate_origin_asns, legitimate_prefix, hijacked_prefix }
    }

    pub fn name(&self) -> &'static str {
        "SubprefixHijack"
    }

    pub fn get_attacker_asns(&self, _as_graph: &ASGraph) -> (r: Vec<ASN>)
        ensures
            r@ == self.attacker_asns@,
    {
        clone_u32_vec(&self.attacker_asns)
    }

    pub fn get_legitimate_origin_asns(&self, _as_graph: &ASGraph) -> (r: Vec<ASN>)
        ensures
            r@ == self.legitimate_origin_asns@,
    {
        clone_u32_vec(&self.legitimate_origin_asns)
    }

    /// The victim seeds the covering prefix, the attacker the subprefix.
    pub fn get_seed_asn_ann_dict(&self, _as_graph: &ASGraph) -> (r: Vec<(ASN, Announcement)>)
        requires
            self.legitimate_prefix.wf(),
            self.hijacked_prefix.wf(),
        ensures
            r@.len() == self.legitimate_origin_asns@.len() + self.attacker_asns@.len(),
            forall|i: int|
                0 <= i < self.legitimate_origin_asns@.len() ==> (#[trigger] r@[i]) == (
                    self.legitimate_origin_asns@[i],
                    r@[i].1,
                ) && r@[i].1@ == spec_scenario_seed(
                    self.legitimate_prefix,
                    self.legitimate_origin_asns@[i],
                ),
            forall|i: int|
                self.legitimate_origin_asns@.len() <= i < r@.len() ==> (#[trigger] r@[i]) == (
                    self.attacker_asns@[i - self.legitimate_origin_asns@.len()],
                    r@[i].1,
                ) && r@[i].1@ == spec_scenario_seed(
                    self.hijacked_prefix,
                    self.attacker_asns@[i - self.legitimate_origin_asns@.len()],
                ),
            forall|i: int|
                0 <= i < r@.len() ==> {
                    &&& (#[trigger] r@[i]).1@.prefix.wf()
                    &&& r@[i].1@.as_path.len() == 0
                    &&& !r@[i].1@.withdraw
                },
    {
        let mut r: Vec<(ASN, Announcement)> = Vec::new();
        let mut i: usize = 0;
        while i < self.legitimate_origin_asns.len()
            invariant
                self.legitimate_prefix.wf(),
                self.hijacked_prefix.wf(),
                i <= self.legitimate_origin_asns@.len(),
                r@.len() == i,
                forall|j: int|
                    0 <= j < r@.len() ==> (#[trigger] r@[j]).0 == self.legitimate_origin_asns@[j]
                        && r@[j].1@ == spec_scenario_seed(
                        self.legitimate_prefix,
                        self.legitimate_origin_asns@[j],
                    ),
            decreases self.legitimate_origin_asns@.len() - i,
        {
            let asn = self.legitimate_origin_asns[i];
            let ann = Announcement::new(self.legitimate_prefix, asn, Relationships::Origin);
            r.push((asn, ann));
            i = i + 1;
        }
        let ghost n0 = self.legitimate_origin_asns@.len();
        let mut i: usize = 0;
        while i < self.attacker_asns.len()
            invariant
                self.legitimate_prefix.wf(),
                self.hijacked_prefix.wf(),
                i <= self.attacker_asns@.len(),
                r@.len() == n0 + i,
                n0 == self.legitimate_origin_asns@.len(),
                forall|j: int|
                    0 <= j < n0 ==> (#[trigger] r@[j]).0 == self.legitimate_origin_asns@[j]
                        && r@[j].1@ == spec_scenario_seed(
                        self.legitimate_prefix,
                        self.legitimate_origin_asns@[j],
                    ),
                forall|j: int|
                    n0 <= j < r@.len() ==> (#[trigger] r@[j]).0 == self.attacker_asns@[j - n0]
                        && r@[j].1@ == spec_scenario_seed(
                        self.hijacked_prefix,
                        self.attacker_asns@[j - n0],
                    ),
            decreases self.attacker_asns@.len() - i,
        {
            let asn = self.attacker_asns[i];
            let ann = Announcement::new(self.hijacked_prefix, asn, Relationships::Origin);
            r.push((asn, ann));
            i = i + 1;
        }
        r
    }

    /// One ROA authorizing each legitimate origin for the covering prefix,
    /// maximum length 24, which leaves the /25 invalid by length.
    pub fn get_roas(&self, _as_graph: &ASGraph) -> (r: Vec<ROA>)
        requires
            self.legitimate_prefix.wf(),
        ensures
            r@.len() == self.legitimate_origin_asns@.len(),
            forall|i: int|
                0 <= i < r@.len() ==> {
                    &&& (#[trigger] r@[i]).prefix == self.legitimate_prefix
                    &&& r@[i].origin == self.legitimate_origin_asns@[i]
                    &&& r@[i].max_length == 24
                    &&& r@[i].ta is None
                    &&& r@[i].prefix.wf()
                },
    {
        let mut r: Vec<ROA> = Vec::new();
        let mut i: usize = 0;
        while i < self.legitimate_origin_asns.len()
            invariant
                self.legitimate_prefix.wf(),
                i <= self.legitimate_origin_asns@.len(),
                r@.len() == i,
                forall|j: int|
                    0 <= j < r@.len() ==> {
                        &&& (#[trigger] r@[j]).prefix == self.legitimate_prefix
                        &&& r@[j].origin == self.legitimate_origin_asns@[j]
                        &&& r@[j].max_length == 24
                        &&& r@[j].ta is None
                        &&& r@[j].prefix.wf()
                    },
            decreases self.legitimate_origin_asns@.len() - i,
        {
            let roa = ROA::new(self.legitimate_prefix, self.legitimate_origin_asns[i], Some(24));
            r.push(roa);
            i = i + 1;
        }
        r
    }

    /// The announcements this scenario seeds, as (origin, view) pairs: the
    /// covering prefix at each legitimate origin, then the subprefix at each
    /// attacker.
    pub open spec fn spec_seed_views(&self) -> Seq<(ASN, AnnView)> {
        Seq::new(
            self.legitimate_origin_asns@.len(),
            |i: int|
                (
                    self.legitimate_origin_asns@[i],
                    spec_scenario_seed(self.legitimate_prefix, self.legitimate_origin_asns@[i]),
                ),
        ) + Seq::new(
            self.attacker_asns@.len(),
            |i: int|
                (self.attacker_asns@[i], spec_scenario_seed(self.hijacked_prefix, self.attacker_asns@[i])),
        )
    }

    /// Reset the validator to exactly this scenario's ROAs and set the
    /// engine up with this scenario's seeds: every origin's local RIB ends
    /// holding exactly its seeded routes, and every other table is cleared.
    pub fn setup_engine(&self, engine: &mut SimulationEngine, route_validator: &mut RouteValidator)
        requires
            old(engine).wf(),
            self.legitimate_prefix.wf(),
            self.hijacked_prefix.wf(),
        ensures
            final(engine).wf(),
            final(route_validator).wf(),
            final(route_validator)@.len() == self.legitimate_origin_asns@.len(),
            forall|i: int|
                0 <= i < self.legitimate_origin_asns@.len() ==> {
                    let roa = #[trigger] final(route_validator)@[i];
                    &&& roa.prefix == self.legitimate_prefix
                    &&& roa.origin == self.legitimate_origin_asns@[i]
                    &&& roa.max_length == 24
                    &&& roa.ta is None
                },
            forall|a: ASN|
                final(engine).policy_store@.contains_key(a) <==> old(
                    engine,
                ).policy_store@.contains_key(a),
            forall|a: ASN|
                #[trigger] old(engine).policy_store@.contains_key(a) ==> {
                    let pv = final(engine).policy_store@[a];
                    &&& pv.local_rib == spec_seed_fold(self.spec_seed_views(), a)
                    &&& pv.ribs_in =~= Map::<ASN, Map<Prefix, AnnView>>::empty()
                    &&& pv.ribs_out =~= Map::<ASN, Map<Prefix, AnnView>>::empty()
                },
    {
        let mut fresh = RouteValidator::new();
        core::mem::swap(route_validator, &mut fresh);
        let mut roas = self.get_roas(&engine.as_graph);
        let ghost roas0 = roas@;
        let n0 = roas.len();
        let mut k: usize = 0;
        while roas.len() > 0
            invariant
                route_validator.wf(),
                k + roas@.len() == roas0.len(),
                roas0.len() == n0,
                k <= n0,
                roas@ =~= roas0.skip(k as int),
                route_validator@ =~= roas0.take(k as int),
                forall|j: int| 0 <= j < roas0.len() ==> (#[trigger] roas0[j]).prefix.wf(),
            decreases roas@.len(),
        {
            let roa = roas.remove(0);
            proof {
                assert(roa == roas0[k as int]);
                assert(roas@ =~= roas0.skip(k as int + 1));
                assert(roas0.take(k as int).push(roa) =~= roas0.take(k as int + 1));
            }
            route_validator.add_roa(roa);
            k = k + 1;
        }
        proof {
            assert(roas0.take(roas0.len() as int) =~= roas0);
            assert(route_validator@ =~= roas0);
        }
        let seeds = self.get_seed_asn_ann_dict(&engine.as_graph);
        proof {
            assert(spec_seeds_view(seeds@) =~= self.spec_seed_views());
        }
        engine.setup(seeds);
    }

    /// Success: strictly more than half of the ASes route the subprefix to
    /// an attacker origin, in exact integer arithmetic.
    pub fn is_successful(&self, engine: &SimulationEngine) -> (r: bool)
        requires
            engine.wf(),
        ensures
            r == (engine.policy_store.pairs().len() > 0 && 2 * spec_count_routes_from(
                engine.policy_store.pairs(),
                self.hijacked_prefix,
                self.attacker_asns@,
            ) > engine.policy_store.pairs().len()),
    {
        let count = count_routes_from(&engine.policy_store, &self.hijacked_prefix, &self.attacker_asns);
        let total = engine.policy_store.len();
        if total == 0 {
            return false;
        }
        let lhs = count as u128 * 2;
        let rhs = total as u128;
        lhs > rhs
    }
}

} // verus!
