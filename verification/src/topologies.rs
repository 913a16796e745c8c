//! Small fixed topologies used by the examples and tests.

use vstd::prelude::*;

use crate::as_graph::{
    spec_is_provider_cycle, spec_rank_respects, ASBuilder, ASGraph, ASView, ASN,
};
use crate::shared::CommonASNs;

verus! {

/// A three-AS chain: a tier-1 (65001) above a transit customer (65002)
/// above a stub (65003).
pub fn create_simple_topology() -> (r: ASGraph)
    ensures
        r.wf(),
        forall|a: ASN|
            r.as_dict@.contains_key(a) <==> (a == 65001 || a == 65002 || a == 65003),
        r.as_dict@[65001].tier_1 && r.as_dict@[65001].customers =~= seq![65002u32]
            && r.as_dict@[65001].providers =~= Seq::<ASN>::empty(),
        !r.as_dict@[65002].tier_1 && r.as_dict@[65002].providers =~= seq![65001u32]
            && r.as_dict@[65002].customers =~= seq![65003u32],
        !r.as_dict@[65003].tier_1 && r.as_dict@[65003].providers =~= seq![65002u32]
            && r.as_dict@[65003].customers =~= Seq::<ASN>::empty(),
{
    let mut b1 = ASBuilder::new(65001).as_tier_1();
    b1 = b1.with_customers(one_two(65002, None));
    let mut b2 = ASBuilder::new(65002);
    b2 = b2.with_providers(one_two(65001, None));
    b2 = b2.with_customers(one_two(65003, None));
    let mut b3 = ASBuilder::new(65003);
    b3 = b3.with_providers(one_two(65002, None));
    let mut builders: Vec<ASBuilder> = Vec::new();
    builders.push(b1);
    builders.push(b2);
    builders.push(b3);
    proof {
        assert(builders@[0].asn == 65001 && builders@[1].asn == 65002 && builders@[2].asn
            == 65003);
    }
    let g = ASGraph::build(builders);
    proof {
        let all = builders@.map(|j: int, b: ASBuilder| b.asn);
        assert(all[0] == 65001 && all[1] == 65002 && all[2] == 65003);
        assert(all.contains(65001u32) && all.contains(65002u32) && all.contains(65003u32));
        lemma_edges_kept(seq![65002u32], all);
        lemma_edges_kept(seq![65001u32], all);
        lemma_edges_kept(seq![65003u32], all);
        lemma_edges_kept(Seq::<ASN>::empty(), all);
        assert forall|a: ASN| g.as_dict@.contains_key(a) implies (a == 65001 || a == 65002 || a
            == 65003) by {
            let i = choose|i: int| 0 <= i < builders@.len() && (#[trigger] builders@[i]).asn == a;
        }
    }
    g
}

/// The attack topology: victim 777 dual-homed under transits 1 and 2,
/// attacker 666 under 3 and 4, transits 1-4 each under one of the six
/// tier-1 networks 5-10, with ranks and groups computed.
pub fn create_attack_topology() -> (r: ASGraph)
    ensures
        r.wf(),
        forall|a: ASN|
            r.as_dict@.contains_key(a) <==> (a == CommonASNs::VICTIM || a == CommonASNs::ATTACKER
                || (1 <= a <= 10)),
        r.as_dict@[CommonASNs::VICTIM].providers =~= seq![1u32, 2u32],
        r.as_dict@[CommonASNs::ATTACKER].providers =~= seq![3u32, 4u32],
        forall|a: ASN|
            1 <= a <= 4 ==> (#[trigger] r.as_dict@[a]).providers =~= seq![(a + 4) as u32],
        forall|a: ASN| 5 <= a <= 10 ==> (#[trigger] r.as_dict@[a]).tier_1,
        r.as_dict@[1].customers =~= seq![CommonASNs::VICTIM],
        r.as_dict@[2].customers =~= seq![CommonASNs::VICTIM],
        r.as_dict@[3].customers =~= seq![CommonASNs::ATTACKER],
        r.as_dict@[4].customers =~= seq![CommonASNs::ATTACKER],
        r.as_dict@[5].customers =~= seq![1u32, 3u32],
        r.as_dict@[6].customers =~= seq![2u32, 4u32],
        r.as_dict@[7].customers =~= seq![1u32, 2u32],
        r.as_dict@[8].customers =~= seq![3u32, 4u32],
        // The provider digraph is acyclic, so rank assignment is complete
        // and monotone along provider edges.
        forall|a: ASN|
            #[trigger] r.as_dict@.contains_key(a) ==> r.as_dict@[a].propagation_rank is Some,
        forall|a: ASN, p: ASN|
            r.as_dict@.contains_key(a) && r.as_dict@.contains_key(p) && (
            #[trigger] r.as_dict@[a].providers.contains(p)) && r.as_dict@[a].propagation_rank
                is Some ==> r.as_dict@[p].propagation_rank is Some
                && r.as_dict@[p].propagation_rank.unwrap() < r.as_dict@[a].propagation_rank.unwrap(),
        r.asn_groups@.contains_key(crate::shared::ASNGroups::Tier1),
        forall|x: ASN|
            r.asn_groups@[crate::shared::ASNGroups::Tier1].contains(x) <==> r.as_dict@.contains_key(
                x,
            ) && (#[trigger] r.as_dict@[x]).tier_1,
{
    let mut builders: Vec<ASBuilder> = Vec::new();
    let mut bv = ASBuilder::new(CommonASNs::VICTIM);
    bv = bv.with_providers(one_two(1, Some(2)));
    builders.push(bv);
    let mut ba = ASBuilder::new(CommonASNs::ATTACKER);
    ba = ba.with_providers(one_two(3, Some(4)));
    builders.push(ba);
    let b1 = ASBuilder::new(1).with_providers(one_two(5, None)).with_customers(
        one_two(CommonASNs::VICTIM, None),
    );
    builders.push(b1);
    let b2 = ASBuilder::new(2).with_providers(one_two(6, None)).with_customers(
        one_two(CommonASNs::VICTIM, None),
    );
    builders.push(b2);
    let b3 = ASBuilder::new(3).with_providers(one_two(7, None)).with_customers(
        one_two(CommonASNs::ATTACKER, None),
    );
    builders.push(b3);
    let b4 = ASBuilder::new(4).with_providers(one_two(8, None)).with_customers(
        one_two(CommonASNs::ATTACKER, None),
    );
    builders.push(b4);
    let b5 = ASBuilder::new(5).as_tier_1().with_customers(one_two(1, Some(3)));
    builders.push(b5);
    let b6 = ASBuilder::new(6).as_tier_1().with_customers(one_two(2, Some(4)));
    builders.push(b6);
    let b7 = ASBuilder::new(7).as_tier_1().with_customers(one_two(1, Some(2)));
    builders.push(b7);
    let b8 = ASBuilder::new(8).as_tier_1().with_customers(one_two(3, Some(4)));
    builders.push(b8);
    let b9 = ASBuilder::new(9).as_tier_1();
    builders.push(b9);
    let b10 = ASBuilder::new(10).as_tier_1();
    builders.push(b10);
    let mut g = ASGraph::build(builders);
    proof {
        let all = builders@.map(|j: int, b: ASBuilder| b.asn);
        assert(all.contains(CommonASNs::VICTIM)) by {
            assert(all[0] == CommonASNs::VICTIM);
        }
        assert(all.contains(CommonASNs::ATTACKER)) by {
            assert(all[1] == CommonASNs::ATTACKER);
        }
        assert forall|a: ASN| 1 <= a <= 10 implies all.contains(a) by {
            assert(all[a + 1] == a);
        }
        lemma_edges_kept(seq![1u32, 2u32], all);
        lemma_edges_kept(seq![3u32, 4u32], all);
        lemma_edges_kept(seq![5u32], all);
        lemma_edges_kept(seq![6u32], all);
        lemma_edges_kept(seq![7u32], all);
        lemma_edges_kept(seq![8u32], all);
        lemma_edges_kept(seq![CommonASNs::VICTIM], all);
        lemma_edges_kept(seq![CommonASNs::ATTACKER], all);
        lemma_edges_kept(seq![1u32, 3u32], all);
        lemma_edges_kept(seq![2u32, 4u32], all);
        lemma_edges_kept(seq![1u32, 2u32], all);
        lemma_edges_kept(seq![3u32, 4u32], all);
        lemma_edges_kept(Seq::<ASN>::empty(), all);
        assert forall|a: ASN| g.as_dict@.contains_key(a) implies (a == CommonASNs::VICTIM || a
            == CommonASNs::ATTACKER || (1 <= a <= 10)) by {
            let i = choose|i: int| 0 <= i < builders@.len() && (#[trigger] builders@[i]).asn == a;
        }
        assert forall|a: ASN| 1 <= a <= 4 implies (#[trigger] g.as_dict@[a]).providers =~= seq![
            (a + 4) as u32,
        ] by {
            assert(builders@[a + 1].asn == a);
        }
        assert forall|a: ASN| 5 <= a <= 10 implies (#[trigger] g.as_dict@[a]).tier_1 by {
            assert(builders@[a + 1].asn == a);
        }
    }
    let ghost g0 = g.as_dict@;
    proof {
        // The provider digraph is acyclic: the tiered rank witness drops
        // along every provider edge.
        let w = Map::<ASN, nat>::empty().insert(5, 0nat).insert(6, 0nat).insert(7, 0nat).insert(
            8,
            0nat,
        ).insert(9, 0nat).insert(10, 0nat).insert(1, 1nat).insert(2, 1nat).insert(3, 1nat).insert(
            4,
            1nat,
        ).insert(CommonASNs::VICTIM, 2nat).insert(CommonASNs::ATTACKER, 2nat);
        assert forall|a: ASN, p: ASN|
            w.contains_key(a) && g0.contains_key(p) && #[trigger] g0[a].providers.contains(p)
                && g0.contains_key(a) implies w.contains_key(p) && w[p] < w[a] by {
            if a == CommonASNs::VICTIM {
                assert(g0[a].providers =~= seq![1u32, 2u32]);
                assert(p == 1 || p == 2) by {
                    assert(g0[a].providers.contains(p));
                    let i = choose|i: int|
                        0 <= i < g0[a].providers.len() && g0[a].providers[i] == p;
                }
            } else if a == CommonASNs::ATTACKER {
                assert(p == 3 || p == 4) by {
                    let i = choose|i: int|
                        0 <= i < g0[a].providers.len() && g0[a].providers[i] == p;
                }
            } else if 1 <= a <= 4 {
                assert(p == a + 4) by {
                    assert(g0[a].providers =~= seq![(a + 4) as u32]);
                    let i = choose|i: int|
                        0 <= i < g0[a].providers.len() && g0[a].providers[i] == p;
                }
            } else {
                assert(5 <= a <= 10);
                assert(builders@[a + 1].asn == a);
                assert(g0[a].providers =~= Seq::<ASN>::empty()) by {
                    assert(builders@[a + 1].provider_asns@ =~= Seq::<ASN>::empty());
                    crate::vecs::lemma_filter_all_present(
                        builders@[a + 1].provider_asns@,
                        builders@.map(|j: int, b: ASBuilder| b.asn),
                    );
                }
                assert(false);
            }
        }
        assert forall|a: ASN| g0.contains_key(a) implies #[trigger] w.contains_key(a) by {}
        assert forall|a: ASN| #[trigger] w.contains_key(a) implies g0.contains_key(a) by {
            if a == CommonASNs::VICTIM {
                assert(builders@[0].asn == a);
            } else if a == CommonASNs::ATTACKER {
                assert(builders@[1].asn == a);
            } else {
                assert(1 <= a <= 10);
                assert(builders@[a + 1].asn == a);
            }
        }
        assert(spec_rank_respects(g0, w));
        crate::as_graph::lemma_complete_ranking_acyclic(g0, w);
    }
    let cycle_check = g.check_for_cycles();
    match cycle_check {
        Ok(_) => {},
        Err(_) => {},
    }
    g.assign_as_propagation_rank();
    proof {
        assert forall|a: ASN| #[trigger] g.as_dict@.contains_key(a) implies g.as_dict@[
        a].propagation_rank is Some by {
            if g.as_dict@[a].propagation_rank is None {
                let path = choose|path: Seq<ASN>| spec_is_provider_cycle(g0, path);
            }
        }
    }
    proof {
        assert forall|a: ASN|
            #[trigger] g.as_dict@.contains_key(a) implies g.as_dict@[a] =~= (ASView {
            propagation_rank: g.as_dict@[a].propagation_rank,
            ..g0[a]
        }) by {}
    }
    let ghost g1 = g.as_dict@;
    g.add_asn_groups();
    proof {
        assert(g.as_dict@ == g1);
        assert forall|a: ASN| g.as_dict@.contains_key(a) implies (a == CommonASNs::VICTIM || a
            == CommonASNs::ATTACKER || (1 <= a <= 10)) by {
            assert(g0.contains_key(a));
        }
        assert forall|a: ASN| (a == CommonASNs::VICTIM || a == CommonASNs::ATTACKER || (1 <= a
            <= 10)) implies g.as_dict@.contains_key(a) by {
            assert(g0.contains_key(a)) by {
                if a == CommonASNs::VICTIM {
                    assert(builders@[0].asn == a);
                } else if a == CommonASNs::ATTACKER {
                    assert(builders@[1].asn == a);
                } else {
                    assert(builders@[a + 1].asn == a);
                }
            }
        }
    }
    g
}

/// A vector of one or two ASNs.
fn one_two(a: u32, b: Option<u32>) -> (r: Vec<u32>)
    ensures
        match b {
            Some(bb) => r@ =~= seq![a, bb],
            None => r@ =~= seq![a],
        },
{
    let mut r: Vec<u32> = Vec::new();
    r.push(a);
    match b {
        Some(bb) => {
            r.push(bb);
        },
        None => {},
    }
    r
}

/// Every listed edge endpoint occurring in the ASN universe is kept by the
/// build filter.
proof fn lemma_edges_kept(s: Seq<u32>, all: Seq<u32>)
    requires
        forall|x: u32| s.contains(x) ==> all.contains(x),
    ensures
        s.filter(|x: u32| all.contains(x)) =~= s,
{
    crate::vecs::lemma_filter_all_present(s, all);
}

} // verus!
