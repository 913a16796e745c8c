//! The propagation engine: one policy per AS, driven through rounds of the
//! three-phase Gao-Rexford pump.

use vstd::prelude::*;

use crate::announcement::{AnnView, Announcement, ASN};
use crate::policy::{
    spec_deliveries_view, spec_fresh_bgp_policy, spec_process_queue, spec_seed_norm, Policy,
    PolicyStore, PolicyView,
};
use crate::prefix::Prefix;
use crate::as_graph::ASGraph;
use crate::vecs::clone_u32_vec;
use crate::shared::Relationships;

verus! {

/// The seed list as (origin, view) pairs.
pub open spec fn spec_seeds_view(s: Seq<(ASN, Announcement)>) -> Seq<(ASN, AnnView)> {
    s.map_values(|x: (ASN, Announcement)| (x.0, x.1@))
}

/// The local RIB an origin holds after a list of seeds is applied in order:
/// each of its non-withdrawn seeds normalized and inserted, each withdrawn
/// seed's prefix removed.
pub open spec fn spec_seed_fold(seeds: Seq<(ASN, AnnView)>, asn: ASN) -> Map<
    crate::prefix::Prefix,
    AnnView,
>
    decreases seeds.len(),
{
    if seeds.len() == 0 {
        Map::empty()
    } else {
        let m = spec_seed_fold(seeds.drop_last(), asn);
        let (o, a) = seeds.last();
        if o == asn {
            if a.withdraw {
                m.remove(a.prefix)
            } else {
                m.insert(a.prefix, spec_seed_norm(a, asn))
            }
        } else {
            m
        }
    }
}

/// Some delivery in the list is addressed to this AS with this payload.
pub open spec fn spec_from_deliveries(
    ds: Seq<(ASN, AnnView, Relationships)>,
    a: ASN,
    item: (AnnView, Relationships),
) -> bool {
    exists|t: int| 0 <= t < ds.len() && (#[trigger] ds[t]).0 == a && (ds[t].1, ds[t].2) == item
}

/// The queue holds this item at or after an index.
pub open spec fn spec_suffix_contains(
    q: Seq<(AnnView, Relationships)>,
    from: int,
    item: (AnnView, Relationships),
) -> bool {
    exists|k: int| from <= k < q.len() && #[trigger] q[k] == item
}

/// Delivering a list of stamped copies: every policy keeps its tables,
/// identity and extension; receive queues are only extended, each appended
/// entry is one of the copies, and every copy addressed to a present AS
/// lands in its queue.
pub open spec fn spec_deliveries_effect(
    mid: Map<ASN, PolicyView>,
    post: Map<ASN, PolicyView>,
    ds: Seq<(ASN, AnnView, Relationships)>,
) -> bool {
    &&& forall|a: ASN| post.contains_key(a) <==> mid.contains_key(a)
    &&& forall|a: ASN|
        #[trigger] post.contains_key(a) ==> {
            let pv = post[a];
            let mv = mid[a];
            &&& pv.local_rib == mv.local_rib
            &&& pv.ribs_in == mv.ribs_in
            &&& pv.ribs_out == mv.ribs_out
            &&& pv.settings == mv.settings
            &&& pv.asn == mv.asn
            &&& pv.extension == mv.extension
            &&& pv.recv_q.len() >= mv.recv_q.len()
            &&& pv.recv_q.take(mv.recv_q.len() as int) == mv.recv_q
            &&& forall|k: int|
                mv.recv_q.len() <= k < pv.recv_q.len() ==> spec_from_deliveries(
                    ds,
                    a,
                    #[trigger] pv.recv_q[k],
                )
        }
    &&& forall|t: int|
        0 <= t < ds.len() && mid.contains_key((#[trigger] ds[t]).0) ==> spec_suffix_contains(
            post[ds[t].0].recv_q,
            mid[ds[t].0].recv_q.len() as int,
            (ds[t].1, ds[t].2),
        )
}

/// One AS's turn in a phase: when the AS is in the graph and the store, its
/// queue is drained through validation and the processing step, and the
/// resulting copies are enqueued at their receivers; otherwise nothing
/// changes.
pub open spec fn spec_asn_step(pre: SimulationEngine, post: SimulationEngine, asn: ASN) -> bool {
    &&& post.as_graph == pre.as_graph
    &&& if pre.as_graph.as_dict@.contains_key(asn) && pre.policy_store@.contains_key(asn) {
        exists|s0: Policy, p1: Policy, ds: Seq<(ASN, AnnView, Relationships)>|
            {
                &&& s0.local_rib@ == pre.policy_store@[asn].local_rib
                &&& s0.ribs_in@ == pre.policy_store@[asn].ribs_in
                &&& s0.ribs_out@ == pre.policy_store@[asn].ribs_out
                &&& s0.recv_q@.len() == 0
                &&& s0.settings == pre.policy_store@[asn].settings
                &&& s0.asn == pre.policy_store@[asn].asn
                &&& s0.extension == pre.policy_store@[asn].extension
                &&& #[trigger] spec_process_queue(
                    s0,
                    p1,
                    ds,
                    pre.policy_store@[asn].recv_q,
                    pre.as_graph.as_dict@[asn],
                )
                &&& spec_deliveries_effect(pre.policy_store@.insert(asn, p1@), post.policy_store@, ds)
            }
    } else {
        post.policy_store@ == pre.policy_store@
    }
}

/// A chain of per-AS turns in the given visit order.
pub open spec fn spec_engine_steps(
    pre: SimulationEngine,
    post: SimulationEngine,
    order: Seq<ASN>,
) -> bool
    decreases order.len(),
{
    if order.len() == 0 {
        post.as_graph == pre.as_graph && post.policy_store@ == pre.policy_store@
    } else {
        exists|mid: SimulationEngine|
            #[trigger] spec_asn_step(pre, mid, order[0]) && spec_engine_steps(
                mid,
                post,
                order.drop_first(),
            )
    }
}

/// The rank layers flattened from the highest rank down.
pub open spec fn spec_flat_rev(layers: Seq<Vec<ASN>>) -> Seq<ASN>
    decreases layers.len(),
{
    if layers.len() == 0 {
        Seq::empty()
    } else {
        layers.last()@ + spec_flat_rev(layers.drop_last())
    }
}

/// The rank layers flattened from rank 0 up.
pub open spec fn spec_flat_fwd(layers: Seq<Vec<ASN>>) -> Seq<ASN>
    decreases layers.len(),
{
    if layers.len() == 0 {
        Seq::empty()
    } else {
        spec_flat_fwd(layers.drop_last()) + layers.last()@
    }
}

/// The AS visit order of one three-phase round: deepest customers first up
/// to the providers, then every AS for the peer phase, then tier-1 first
/// down to the customers.
pub open spec fn spec_round_order(g: ASGraph) -> Seq<ASN> {
    spec_flat_rev(g.propagation_ranks@) + Seq::new(
        g.as_dict.pairs().len(),
        |i: int| g.as_dict.pairs()[i].0,
    ) + spec_flat_fwd(g.propagation_ranks@)
}

/// A chain of complete three-phase rounds.
pub open spec fn spec_run_steps(pre: SimulationEngine, post: SimulationEngine, n: int) -> bool
    decreases n,
{
    if n <= 0 {
        post.as_graph == pre.as_graph && post.policy_store@ == pre.policy_store@
    } else {
        exists|mid: SimulationEngine|
            #[trigger] spec_engine_steps(pre, mid, spec_round_order(pre.as_graph))
                && spec_run_steps(mid, post, n - 1)
    }
}

/// Peeling the front of a reverse flattening.
proof fn lemma_flat_rev_unsnoc(layers: Seq<Vec<ASN>>)
    requires
        layers.len() > 0,
    ensures
        spec_flat_rev(layers) =~= spec_flat_rev(layers.drop_first()) + layers[0]@,
    decreases layers.len(),
{
    if layers.len() == 1 {
        assert(layers.drop_last() =~= Seq::<Vec<ASN>>::empty());
        assert(layers.drop_first() =~= Seq::<Vec<ASN>>::empty());
        assert(layers.last() == layers[0]);
    } else {
        lemma_flat_rev_unsnoc(layers.drop_last());
        assert(layers.drop_last().drop_first() =~= layers.drop_first().drop_last());
        assert(layers.drop_last()[0] == layers[0]);
        assert(layers.drop_first().last() == layers.last());
    }
}

/// Append one turn at the back of a chain.
proof fn lemma_steps_snoc(
    e0: SimulationEngine,
    e1: SimulationEngine,
    e2: SimulationEngine,
    order: Seq<ASN>,
    asn: ASN,
)
    requires
        spec_engine_steps(e0, e1, order),
        spec_asn_step(e1, e2, asn),
    ensures
        spec_engine_steps(e0, e2, order.push(asn)),
    decreases order.len(),
{
    let oo = order.push(asn);
    if order.len() == 0 {
        assert(oo[0] == asn);
        assert(oo.drop_first() =~= Seq::<ASN>::empty());
        assert(spec_asn_step(e0, e2, asn));
        assert(spec_engine_steps(e2, e2, oo.drop_first()));
    } else {
        assert(oo[0] == order[0]);
        assert(oo.drop_first() =~= order.drop_first().push(asn));
        let mid = choose|mid: SimulationEngine|
            #[trigger] spec_asn_step(e0, mid, order[0]) && spec_engine_steps(
                mid,
                e1,
                order.drop_first(),
            );
        lemma_steps_snoc(mid, e1, e2, order.drop_first(), asn);
        assert(spec_asn_step(e0, mid, oo[0]) && spec_engine_steps(mid, e2, oo.drop_first()));
    }
}

/// Append one round at the back of a run chain.
proof fn lemma_run_snoc(
    e0: SimulationEngine,
    e1: SimulationEngine,
    e2: SimulationEngine,
    n: int,
)
    requires
        n >= 0,
        spec_run_steps(e0, e1, n),
        spec_engine_steps(e1, e2, spec_round_order(e1.as_graph)),
    ensures
        spec_run_steps(e0, e2, n + 1),
    decreases n,
{
    if n == 0 {
        assert(e1.as_graph == e0.as_graph && e1.policy_store@ == e0.policy_store@);
        assert(spec_round_order(e1.as_graph) == spec_round_order(e0.as_graph));
        assert(spec_engine_steps(e0, e2, spec_round_order(e0.as_graph))) by {
            lemma_steps_pre_eq(e0, e1, e2, spec_round_order(e0.as_graph));
        }
        assert(spec_run_steps(e2, e2, 0));
    } else {
        let mid = choose|mid: SimulationEngine|
            #[trigger] spec_engine_steps(e0, mid, spec_round_order(e0.as_graph))
                && spec_run_steps(mid, e1, n - 1);
        lemma_run_snoc(mid, e1, e2, n - 1);
    }
}

/// A chain is insensitive to which equal engine value it starts from.
proof fn lemma_steps_pre_eq(
    e0: SimulationEngine,
    e1: SimulationEngine,
    post: SimulationEngine,
    order: Seq<ASN>,
)
    requires
        e1.as_graph == e0.as_graph,
        e1.policy_store@ == e0.policy_store@,
        spec_engine_steps(e1, post, order),
    ensures
        spec_engine_steps(e0, post, order),
    decreases order.len(),
{
    if order.len() > 0 {
        let mid = choose|mid: SimulationEngine|
            #[trigger] spec_asn_step(e1, mid, order[0]) && spec_engine_steps(
                mid,
                post,
                order.drop_first(),
            );
        assert(spec_asn_step(e0, mid, order[0]));
    }
}

/// The engine: the read-only AS graph and the per-AS policy state.
#[derive(Debug)]
pub struct SimulationEngine {
    pub as_graph: ASGraph,
    pub policy_store: PolicyStore,
}

impl SimulationEngine {
    /// The engine invariant: a well-formed graph and a well-formed store.
    pub open spec fn wf(&self) -> bool {
        self.as_graph.wf() && self.policy_store.wf()
    }

    /// An engine over a graph, with exactly one fresh plain-BGP policy per
    /// AS of the graph.
    pub fn new(as_graph: ASGraph) -> (r: SimulationEngine)
        requires
            as_graph.wf(),
        ensures
            r.wf(),
            r.as_graph == as_graph,
            forall|a: ASN|
                #[trigger] r.policy_store@.contains_key(a) <==> as_graph.as_dict@.contains_key(a),
            forall|i: int|
                0 <= i < r.policy_store.pairs().len() ==> spec_fresh_bgp_policy(
                    (#[trigger] r.policy_store.pairs()[i]).1,
                    r.policy_store.pairs()[i].0,
                ),
    {
        let mut policy_store = PolicyStore::new();
        let asns = as_graph.asns();
        let ghost keys = asns@;
        proof {
            assert forall|a: ASN| as_graph.as_dict@.contains_key(a) implies keys.contains(a) by {
                as_graph.as_dict.lemma_view_in_entries(a);
                let i = choose|i: int|
                    0 <= i < as_graph.as_dict.pairs().len() && (
                    #[trigger] as_graph.as_dict.pairs()[i]).0 == a;
                assert(keys[i] == a);
            }
            assert forall|j: int| 0 <= j < keys.len() implies as_graph.as_dict@.contains_key(
                #[trigger] keys[j],
            ) by {
                as_graph.as_dict.lemma_entry_in_view(j);
            }
        }
        let mut i: usize = 0;
        while i < asns.len()
            invariant
                policy_store.wf(),
                i <= asns@.len(),
                keys == asns@,
                forall|j: int| 0 <= j < keys.len() ==> as_graph.as_dict@.contains_key(
                    #[trigger] keys[j],
                ),
                forall|j: int| 0 <= j < i ==> policy_store@.contains_key(#[trigger] keys[j]),
                forall|a: ASN|
                    #[trigger] policy_store@.contains_key(a) ==> exists|j: int|
                        0 <= j < i && keys[j] == a,
                forall|t: int|
                    0 <= t < policy_store.pairs().len() ==> spec_fresh_bgp_policy(
                        (#[trigger] policy_store.pairs()[t]).1,
                        policy_store.pairs()[t].0,
                    ),
            decreases asns@.len() - i,
        {
            let ghost pre_store = policy_store;
            policy_store.create_policy(asns[i]);
            proof {
                assert forall|a: ASN| #[trigger] policy_store@.contains_key(a) implies exists|
                    j: int,
                |
                    0 <= j < i + 1 && keys[j] == a by {
                    if pre_store@.contains_key(a) {
                        let j = choose|j: int| 0 <= j < i && keys[j] == a;
                    } else {
                        assert(keys[i as int] == a);
                    }
                }
                assert forall|t: int| 0 <= t < policy_store.pairs().len() implies spec_fresh_bgp_policy(
                    (#[trigger] policy_store.pairs()[t]).1,
                    policy_store.pairs()[t].0,
                ) by {
                    if exists|j: int|
                        0 <= j < pre_store.pairs().len() && pre_store.pairs()[j] == (
                        #[trigger] policy_store.pairs()[t]) {
                        let j = choose|j: int|
                            0 <= j < pre_store.pairs().len() && pre_store.pairs()[j] == (
                            #[trigger] policy_store.pairs()[t]);
                    }
                }
            }
            i = i + 1;
        }
        proof {
            assert forall|a: ASN| as_graph.as_dict@.contains_key(a) implies policy_store@.contains_key(
                a,
            ) by {
                assert(keys.contains(a));
                let j = choose|j: int| 0 <= j < keys.len() && keys[j] == a;
            }
            assert forall|a: ASN| policy_store@.contains_key(a) implies as_graph.as_dict@.contains_key(
                a,
            ) by {
                let j = choose|j: int| 0 <= j < keys.len() && keys[j] == a;
            }
        }
        SimulationEngine { as_graph, policy_store }
    }

    /// Reset every policy's tables, seed the initial announcements at their
    /// origins, and run the initial propagation pass that offers every
    /// seeded route to the origin's neighbors.
    pub fn setup(&mut self, initial_announcements: Vec<(ASN, Announcement)>)
        requires
            old(self).wf(),
            forall|i: int|
                0 <= i < initial_announcements@.len() ==> (
                #[trigger] initial_announcements@[i]).1@.prefix.wf(),
            forall|i: int|
                0 <= i < initial_announcements@.len() ==> {
                    let seed = (#[trigger] initial_announcements@[i]);
                    !seed.1@.withdraw && seed.1@.as_path.contains(seed.0) ==> (seed.1@.as_path[0]
                        == seed.0 && !seed.1@.as_path.skip(1).contains(seed.0))
                },
        ensures
            final(self).wf(),
            final(self).as_graph == old(self).as_graph,
            forall|a: ASN|
                final(self).policy_store@.contains_key(a) <==> old(self).policy_store@.contains_key(
                    a,
                ),
            forall|a: ASN|
                #[trigger] old(self).policy_store@.contains_key(a) ==> {
                    let pv = final(self).policy_store@[a];
                    let ov = old(self).policy_store@[a];
                    &&& pv.local_rib == spec_seed_fold(spec_seeds_view(initial_announcements@), a)
                    &&& pv.ribs_in =~= Map::<ASN, Map<Prefix, AnnView>>::empty()
                    &&& pv.ribs_out =~= Map::<ASN, Map<Prefix, AnnView>>::empty()
                    &&& pv.settings == ov.settings
                    &&& pv.asn == ov.asn
                    &&& pv.extension == ov.extension
                },
            forall|o: ASN, pfx: Prefix, rel: Relationships, nbr: ASN|
                #![trigger spec_seed_fold(spec_seeds_view(initial_announcements@), o)[pfx], old(self).as_graph.as_dict@[o].spec_neighbors(rel).contains(nbr)]
                (old(self).policy_store@.contains_key(o) && old(self).as_graph.as_dict@.contains_key(
                    o,
                ) && spec_seed_fold(spec_seeds_view(initial_announcements@), o).contains_key(pfx)
                    && (rel is Customers || rel is Peers || rel is Providers) && old(
                    self,
                ).as_graph.as_dict@[o].spec_neighbors(rel).contains(nbr) && old(
                    self,
                ).policy_store@.contains_key(nbr)) ==> spec_suffix_contains(
                    final(self).policy_store@[nbr].recv_q,
                    0,
                    (
                        crate::policy::spec_send_ann(
                            spec_seed_fold(spec_seeds_view(initial_announcements@), o)[pfx],
                            o,
                            rel,
                        ),
                        rel.spec_invert(),
                    ),
                ),
    {
        let ghost g0 = old(self).policy_store@;
        let ghost seedsv = spec_seeds_view(initial_announcements@);
        // Reset.
        let n = self.policy_store.len();
        let mut i: usize = 0;
        while i < n
            invariant
                self.policy_store.wf(),
                self.as_graph == old(self).as_graph,
                old(self).as_graph.wf(),
                g0 == old(self).policy_store@,
                i <= n,
                n == self.policy_store.pairs().len(),
                forall|j: int|
                    0 <= j < self.policy_store.pairs().len() ==> (
                    #[trigger] self.policy_store.pairs()[j]).0 == old(self).policy_store.pairs()[j].0,
                forall|a: ASN| self.policy_store@.contains_key(a) <==> g0.contains_key(a),
                forall|a: ASN|
                    #[trigger] g0.contains_key(a) ==> {
                        let pv = self.policy_store@[a];
                        &&& pv.settings == g0[a].settings
                        &&& pv.asn == g0[a].asn
                        &&& pv.extension == g0[a].extension
                    },
                forall|j: int|
                    0 <= j < i ==> {
                        let pv = self.policy_store@[(#[trigger] self.policy_store.pairs()[j]).0];
                        &&& pv.local_rib =~= Map::<Prefix, AnnView>::empty()
                        &&& pv.ribs_in =~= Map::<ASN, Map<Prefix, AnnView>>::empty()
                        &&& pv.ribs_out =~= Map::<ASN, Map<Prefix, AnnView>>::empty()
                        &&& pv.recv_q =~= Seq::<(AnnView, Relationships)>::empty()
                    },
            decreases n - i,
        {
            let asn = self.policy_store.asn_at(i);
            proof {
                self.policy_store.lemma_entry_in_view(i as int);
            }
            match self.policy_store.get_mut(&asn) {
                Some(p) => {
                    p.local_rib.clear();
                    p.recv_q.clear();
                    p.ribs_in.clear();
                    p.ribs_out.clear();
                },
                None => {},
            }
            proof {
                assert forall|j: int| 0 <= j < i + 1 implies {
                    let pv = self.policy_store@[(#[trigger] self.policy_store.pairs()[j]).0];
                    &&& pv.local_rib =~= Map::<Prefix, AnnView>::empty()
                    &&& pv.ribs_in =~= Map::<ASN, Map<Prefix, AnnView>>::empty()
                    &&& pv.ribs_out =~= Map::<ASN, Map<Prefix, AnnView>>::empty()
                    &&& pv.recv_q =~= Seq::<(AnnView, Relationships)>::empty()
                } by {
                    if self.policy_store.pairs()[j].0 != asn {
                    }
                }
            }
            i = i + 1;
        }
        proof {
            assert forall|a: ASN| #[trigger] g0.contains_key(a) implies {
                let pv = self.policy_store@[a];
                &&& pv.local_rib =~= Map::<Prefix, AnnView>::empty()
                &&& pv.ribs_in =~= Map::<ASN, Map<Prefix, AnnView>>::empty()
                &&& pv.ribs_out =~= Map::<ASN, Map<Prefix, AnnView>>::empty()
                &&& pv.recv_q =~= Seq::<(AnnView, Relationships)>::empty()
            } by {
                self.policy_store.lemma_view_in_entries(a);
                let j = choose|j: int|
                    0 <= j < self.policy_store.pairs().len() && (
                    #[trigger] self.policy_store.pairs()[j]).0 == a;
            }
            assert(seedsv.take(0) =~= Seq::<(ASN, AnnView)>::empty());
            assert forall|a: ASN| #[trigger] g0.contains_key(a) implies self.policy_store@[
            a].local_rib == spec_seed_fold(seedsv.take(0), a) by {
                assert(spec_seed_fold(seedsv.take(0), a) =~= Map::<Prefix, AnnView>::empty());
            }
        }
        // Seed.
        let mut i: usize = 0;
        while i < initial_announcements.len()
            invariant
                self.policy_store.wf(),
                self.as_graph == old(self).as_graph,
                old(self).as_graph.wf(),
                g0 == old(self).policy_store@,
                seedsv == spec_seeds_view(initial_announcements@),
                i <= initial_announcements@.len(),
                seedsv.len() == initial_announcements@.len(),
                forall|a: ASN| self.policy_store@.contains_key(a) <==> g0.contains_key(a),
                forall|a: ASN|
                    #[trigger] g0.contains_key(a) ==> {
                        let pv = self.policy_store@[a];
                        &&& pv.settings == g0[a].settings
                        &&& pv.asn == g0[a].asn
                        &&& pv.extension == g0[a].extension
                        &&& pv.local_rib == spec_seed_fold(seedsv.take(i as int), a)
                        &&& pv.ribs_in =~= Map::<ASN, Map<Prefix, AnnView>>::empty()
                        &&& pv.ribs_out =~= Map::<ASN, Map<Prefix, AnnView>>::empty()
                        &&& pv.recv_q =~= Seq::<(AnnView, Relationships)>::empty()
                    },
                forall|j: int|
                    0 <= j < initial_announcements@.len() ==> (
                    #[trigger] initial_announcements@[j]).1@.prefix.wf(),
                forall|j: int|
                    0 <= j < initial_announcements@.len() ==> {
                        let seed = (#[trigger] initial_announcements@[j]);
                        !seed.1@.withdraw && seed.1@.as_path.contains(seed.0) ==> (
                        seed.1@.as_path[0] == seed.0 && !seed.1@.as_path.skip(1).contains(seed.0))
                    },
            decreases initial_announcements@.len() - i,
        {
            let ghost pre_store = self.policy_store@;
            let asn = initial_announcements[i].0;
            let ann = initial_announcements[i].1.clone_ann();
            proof {
                assert(seedsv[i as int] == (asn, initial_announcements@[i as int].1@));
                assert(seedsv.take(i as int + 1).drop_last() =~= seedsv.take(i as int));
                assert(seedsv.take(i as int + 1).last() == seedsv[i as int]);
            }
            match self.policy_store.get_mut(&asn) {
                Some(p) => {
                    proof {
                        assert(initial_announcements@[i as int].1@ == ann@);
                    }
                    p.seed_ann(ann);
                },
                None => {},
            }
            proof {
                assert forall|a: ASN| #[trigger] g0.contains_key(a) implies self.policy_store@[
                a].local_rib == spec_seed_fold(seedsv.take(i as int + 1), a) by {
                    if a == asn && pre_store.contains_key(asn) {
                        assert(spec_seed_fold(seedsv.take(i as int + 1), a) =~= (
                        if initial_announcements@[i as int].1@.withdraw {
                            spec_seed_fold(seedsv.take(i as int), a).remove(
                                initial_announcements@[i as int].1@.prefix,
                            )
                        } else {
                            spec_seed_fold(seedsv.take(i as int), a).insert(
                                initial_announcements@[i as int].1@.prefix,
                                spec_seed_norm(initial_announcements@[i as int].1@, a),
                            )
                        }));
                    } else {
                        assert(spec_seed_fold(seedsv.take(i as int + 1), a) =~= spec_seed_fold(
                            seedsv.take(i as int),
                            a,
                        ));
                    }
                }
            }
            i = i + 1;
        }
        proof {
            assert(seedsv.take(initial_announcements@.len() as int) =~= seedsv);
        }
        self.propagate_seeded_announcements();
    }

    /// Offer every seeded route to all neighbors of its origin, stamping the
    /// copies as the receivers will see them: local RIBs and the in/out
    /// tables stay untouched, and every present neighbor of a present origin
    /// ends with the stamped copy of each of the origin's routes in its
    /// receive queue.
    fn propagate_seeded_announcements(&mut self)
        requires
            old(self).wf(),
        ensures
            final(self).wf(),
            final(self).as_graph == old(self).as_graph,
            forall|a: ASN|
                final(self).policy_store@.contains_key(a) <==> old(self).policy_store@.contains_key(
                    a,
                ),
            forall|a: ASN|
                #[trigger] old(self).policy_store@.contains_key(a) ==> {
                    let pv = final(self).policy_store@[a];
                    let ov = old(self).policy_store@[a];
                    &&& pv.local_rib == ov.local_rib
                    &&& pv.ribs_in == ov.ribs_in
                    &&& pv.ribs_out == ov.ribs_out
                    &&& pv.settings == ov.settings
                    &&& pv.asn == ov.asn
                    &&& pv.extension == ov.extension
                    &&& pv.recv_q.len() >= ov.recv_q.len()
                    &&& pv.recv_q.take(ov.recv_q.len() as int) == ov.recv_q
                },
            forall|o: ASN, pfx: Prefix, rel: Relationships, nbr: ASN|
                #![trigger old(self).policy_store@[o].local_rib[pfx], old(self).as_graph.as_dict@[o].spec_neighbors(rel).contains(nbr)]
                (old(self).policy_store@.contains_key(o) && old(self).as_graph.as_dict@.contains_key(
                    o,
                ) && old(self).policy_store@[o].local_rib.contains_key(pfx) && (rel is Customers
                    || rel is Peers || rel is Providers) && old(self).as_graph.as_dict@[o].spec_neighbors(
                    rel,
                ).contains(nbr) && old(self).policy_store@.contains_key(nbr)) ==> spec_suffix_contains(
                    final(self).policy_store@[nbr].recv_q,
                    0,
                    (
                        crate::policy::spec_send_ann(
                            old(self).policy_store@[o].local_rib[pfx],
                            o,
                            rel,
                        ),
                        rel.spec_invert(),
                    ),
                ),
    {
        let n = self.policy_store.len();
        let ghost g0 = old(self).policy_store@;
        let mut i: usize = 0;
        while i < n
            invariant
                self.policy_store.wf(),
                self.as_graph == old(self).as_graph,
                old(self).as_graph.wf(),
                g0 == old(self).policy_store@,
                i <= n,
                n == self.policy_store.pairs().len(),
                forall|j2: int|
                    0 <= j2 < self.policy_store.pairs().len() ==> (
                    #[trigger] self.policy_store.pairs()[j2]).0 == old(self).policy_store.pairs()[j2].0,
                forall|a: ASN| self.policy_store@.contains_key(a) <==> g0.contains_key(a),
                forall|a: ASN|
                    #[trigger] g0.contains_key(a) ==> {
                        let pv = self.policy_store@[a];
                        let ov = g0[a];
                        &&& pv.local_rib == ov.local_rib
                        &&& pv.ribs_in == ov.ribs_in
                        &&& pv.ribs_out == ov.ribs_out
                        &&& pv.settings == ov.settings
                        &&& pv.asn == ov.asn
                        &&& pv.extension == ov.extension
                        &&& pv.recv_q.len() >= ov.recv_q.len()
                        &&& pv.recv_q.take(ov.recv_q.len() as int) == ov.recv_q
                    },
                forall|o: ASN, pfx: Prefix, rel: Relationships, nbr: ASN|
                    #![trigger g0[o].local_rib[pfx], old(self).as_graph.as_dict@[o].spec_neighbors(rel).contains(nbr)]
                    ((exists|i2: int|
                        0 <= i2 < i && (#[trigger] self.policy_store.pairs()[i2]).0 == o)
                        && g0.contains_key(o) && old(self).as_graph.as_dict@.contains_key(o)
                        && g0[o].local_rib.contains_key(pfx) && (rel is Customers || rel is Peers
                        || rel is Providers) && old(self).as_graph.as_dict@[o].spec_neighbors(
                        rel,
                    ).contains(nbr) && g0.contains_key(nbr)) ==> spec_suffix_contains(
                        self.policy_store@[nbr].recv_q,
                        0,
                        (
                            crate::policy::spec_send_ann(g0[o].local_rib[pfx], o, rel),
                            rel.spec_invert(),
                        ),
                    ),
            decreases n - i,
        {
            let asn = self.policy_store.asn_at(i);
            proof {
                self.policy_store.lemma_entry_in_view(i as int);
            }
            let mut to_send: Vec<(ASN, Announcement, Relationships)> = Vec::new();
            match self.as_graph.get(&asn) {
                Some(as_obj) => {
                    match self.policy_store.get(&asn) {
                        Some(policy) => {
                            proof {
                                assert(policy@ == self.policy_store@[asn]);
                                assert(g0.contains_key(asn));
                                assert(policy.local_rib@ == g0[asn].local_rib);
                            }
                            let m = policy.local_rib.len();
                            let mut j: usize = 0;
                            while j < m
                                invariant
                                    policy.wf(),
                                    spec_ribs_ok_frame(policy),
                                    j <= m,
                                    m == policy.local_rib.pairs().len(),
                                    policy.local_rib@ == g0[asn].local_rib,
                                    as_obj@ == old(self).as_graph.as_dict@[asn],
                                    forall|t2: int|
                                        0 <= t2 < to_send@.len() ==> (
                                        #[trigger] to_send@[t2]).1@.prefix.wf(),
                                    spec_collected(
                                        to_send@,
                                        policy.local_rib.pairs(),
                                        j as int,
                                        as_obj@,
                                        asn,
                                    ),
                                decreases m - j,
                            {
                                let ann = policy.local_rib.value_at(j);
                                let ghost ts_j0 = to_send@;
                                proof {
                                    policy.local_rib.lemma_entry_in_view(j as int);
                                }
                                let rels = three_relationships();
                                let mut t: usize = 0;
                                while t < rels.len()
                                    invariant
                                        policy.wf(),
                                        j < m,
                                        m == policy.local_rib.pairs().len(),
                                        *ann == policy.local_rib.pairs()[j as int].1,
                                        t <= rels@.len(),
                                        rels@.len() == 3,
                                        rels@[0] is Customers,
                                        rels@[1] is Peers,
                                        rels@[2] is Providers,
                                        ann@.prefix.wf(),
                                        as_obj@ == old(self).as_graph.as_dict@[asn],
                                        forall|t2: int|
                                            0 <= t2 < to_send@.len() ==> (
                                            #[trigger] to_send@[t2]).1@.prefix.wf(),
                                        spec_collected(
                                            to_send@,
                                            policy.local_rib.pairs(),
                                            j as int,
                                            as_obj@,
                                            asn,
                                        ),
                                        to_send@.len() >= ts_j0.len(),
                                        forall|t3: int|
                                            0 <= t3 < ts_j0.len() ==> (#[trigger] to_send@[t3])
                                                == ts_j0[t3],
                                        forall|t2: int, nbr: ASN|
                                            #![trigger rels@[t2], as_obj@.spec_neighbors(rels@[t2]).contains(nbr)]
                                            (0 <= t2 < t && as_obj@.spec_neighbors(
                                                rels@[t2],
                                            ).contains(nbr)) ==> exists|t3: int|
                                                0 <= t3 < to_send@.len() && (
                                                #[trigger] to_send@[t3]).0 == nbr && to_send@[t3].1@
                                                    == crate::policy::spec_send_ann(
                                                    ann@,
                                                    asn,
                                                    rels@[t2],
                                                ) && to_send@[t3].2 == rels@[t2].spec_invert(),
                                    decreases rels@.len() - t,
                                {
                                    let rel = rels[t];
                                    let neighbors = as_obj.get_neighbors(rel);
                                    let recv_rel = rel.invert();
                                    let mut ann_to_send = ann.clone_ann();
                                    if ann_to_send.as_path.len() > 0 && ann_to_send.as_path[0]
                                        == asn {
                                        ann_to_send.as_path.remove(0);
                                    }
                                    let new_ann = ann_to_send.copy_and_process(asn, recv_rel);
                                    let ghost ts_t0 = to_send@;
                                    proof {
                                        if ann@.as_path.len() > 0 && ann@.as_path[0] == asn {
                                            assert(ann_to_send@ =~= AnnView {
                                                as_path: ann@.as_path.drop_first(),
                                                ..ann@
                                            }) by {
                                                assert(ann@.as_path.remove(0)
                                                    =~= ann@.as_path.drop_first());
                                            }
                                        }
                                        assert(new_ann@ == crate::policy::spec_send_ann(
                                            ann@,
                                            asn,
                                            rel,
                                        ));
                                    }
                                    let mut u: usize = 0;
                                    while u < neighbors.len()
                                        invariant
                                            u <= neighbors@.len(),
                                            neighbors@ == as_obj@.spec_neighbors(rel),
                                            new_ann@ == crate::policy::spec_send_ann(
                                                ann@,
                                                asn,
                                                rel,
                                            ),
                                            new_ann@.prefix.wf(),
                                            recv_rel == rel.spec_invert(),
                                            forall|t2: int|
                                                0 <= t2 < to_send@.len() ==> (
                                                #[trigger] to_send@[t2]).1@.prefix.wf(),
                                            to_send@.len() >= ts_t0.len(),
                                            ts_t0.len() >= ts_j0.len(),
                                            forall|t3: int|
                                                0 <= t3 < ts_t0.len() ==> (#[trigger] to_send@[t3])
                                                    == ts_t0[t3],
                                            forall|t3: int|
                                                0 <= t3 < ts_j0.len() ==> ts_t0[t3] == ts_j0[t3],
                                            forall|u2: int|
                                                0 <= u2 < u ==> exists|t3: int|
                                                    0 <= t3 < to_send@.len() && (
                                                    #[trigger] to_send@[t3]).0 == (
                                                    #[trigger] neighbors@[u2]) && to_send@[t3].1@
                                                        == crate::policy::spec_send_ann(
                                                        ann@,
                                                        asn,
                                                        rel,
                                                    ) && to_send@[t3].2 == rel.spec_invert(),
                                        decreases neighbors@.len() - u,
                                    {
                                        let ghost pre_ts = to_send@;
                                        to_send.push(
                                            (neighbors[u], new_ann.clone_ann(), recv_rel),
                                        );
                                        proof {
                                            assert forall|t3: int|
                                                0 <= t3 < pre_ts.len() implies to_send@[t3]
                                                == pre_ts[t3] by {}
                                            assert(to_send@[pre_ts.len() as int].0 == neighbors@[
                                                u as int
                                            ]);
                                            assert(to_send@[pre_ts.len() as int].1@ == new_ann@);
                                            assert(to_send@[pre_ts.len() as int].2
                                                == rel.spec_invert());
                                            assert forall|u2: int| 0 <= u2 < u + 1 implies exists|
                                                t3: int,
                                            |
                                                0 <= t3 < to_send@.len() && (
                                                #[trigger] to_send@[t3]).0 == (
                                                #[trigger] neighbors@[u2]) && to_send@[t3].1@
                                                    == crate::policy::spec_send_ann(ann@, asn, rel)
                                                    && to_send@[t3].2 == rel.spec_invert() by {
                                                if u2 < u {
                                                    let t3 = choose|t3: int|
                                                        0 <= t3 < pre_ts.len() && (
                                                        #[trigger] pre_ts[t3]).0 == neighbors@[u2]
                                                            && pre_ts[t3].1@
                                                            == crate::policy::spec_send_ann(
                                                            ann@,
                                                            asn,
                                                            rel,
                                                        ) && pre_ts[t3].2 == rel.spec_invert();
                                                    assert(to_send@[t3] == pre_ts[t3]);
                                                }
                                            }
                                        }
                                        u = u + 1;
                                    }
                                    proof {
                                        // Extend the per-relationship fact to this kind.
                                        assert forall|t2: int, nbr: ASN|
                                            #![trigger rels@[t2], as_obj@.spec_neighbors(rels@[t2]).contains(nbr)]
                                            (0 <= t2 < t + 1 && as_obj@.spec_neighbors(
                                                rels@[t2],
                                            ).contains(nbr)) implies exists|t3: int|
                                            0 <= t3 < to_send@.len() && (#[trigger] to_send@[t3]).0
                                                == nbr && to_send@[t3].1@
                                                == crate::policy::spec_send_ann(
                                                ann@,
                                                asn,
                                                rels@[t2],
                                            ) && to_send@[t3].2 == rels@[t2].spec_invert() by {
                                            if t2 < t {
                                                let t3 = choose|t3: int|
                                                    0 <= t3 < ts_t0.len() && (
                                                    #[trigger] ts_t0[t3]).0 == nbr && ts_t0[t3].1@
                                                        == crate::policy::spec_send_ann(
                                                        ann@,
                                                        asn,
                                                        rels@[t2],
                                                    ) && ts_t0[t3].2 == rels@[t2].spec_invert();
                                                assert(to_send@[t3] == ts_t0[t3]);
                                            } else {
                                                assert(rels@[t2] == rel);
                                                let u2 = choose|u2: int|
                                                    0 <= u2 < neighbors@.len() && neighbors@[u2]
                                                        == nbr;
                                            }
                                        }
                                        // The already-collected coverage survives the pushes.
                                        assert forall|j2: int, rel2: Relationships, nbr: ASN|
                                            #![trigger policy.local_rib.pairs()[j2], as_obj@.spec_neighbors(rel2).contains(nbr)]
                                            (0 <= j2 < j && (rel2 is Customers || rel2 is Peers
                                                || rel2 is Providers) && as_obj@.spec_neighbors(
                                                rel2,
                                            ).contains(nbr)) implies exists|t3: int|
                                            0 <= t3 < to_send@.len() && (#[trigger] to_send@[t3]).0
                                                == nbr && to_send@[t3].1@
                                                == crate::policy::spec_send_ann(
                                                policy.local_rib.pairs()[j2].1@,
                                                asn,
                                                rel2,
                                            ) && to_send@[t3].2 == rel2.spec_invert() by {
                                            let t3 = choose|t3: int|
                                                0 <= t3 < ts_t0.len() && (#[trigger] ts_t0[t3]).0
                                                    == nbr && ts_t0[t3].1@
                                                    == crate::policy::spec_send_ann(
                                                    policy.local_rib.pairs()[j2].1@,
                                                    asn,
                                                    rel2,
                                                ) && ts_t0[t3].2 == rel2.spec_invert();
                                            assert(to_send@[t3] == ts_t0[t3]);
                                        }
                                        assert(spec_collected(
                                            to_send@,
                                            policy.local_rib.pairs(),
                                            j as int,
                                            as_obj@,
                                            asn,
                                        ));
                                    }
                                    t = t + 1;
                                }
                                proof {
                                    assert forall|j2: int, rel: Relationships, nbr: ASN|
                                        #![trigger policy.local_rib.pairs()[j2], as_obj@.spec_neighbors(rel).contains(nbr)]
                                        (0 <= j2 < j + 1 && (rel is Customers || rel is Peers
                                            || rel is Providers) && as_obj@.spec_neighbors(
                                            rel,
                                        ).contains(nbr)) implies exists|t3: int|
                                        0 <= t3 < to_send@.len() && (#[trigger] to_send@[t3]).0
                                            == nbr && to_send@[t3].1@
                                            == crate::policy::spec_send_ann(
                                            policy.local_rib.pairs()[j2].1@,
                                            asn,
                                            rel,
                                        ) && to_send@[t3].2 == rel.spec_invert() by {
                                        if j2 < j {
                                            let t3 = choose|t3: int|
                                                0 <= t3 < ts_j0.len() && (#[trigger] ts_j0[t3]).0
                                                    == nbr && ts_j0[t3].1@
                                                    == crate::policy::spec_send_ann(
                                                    policy.local_rib.pairs()[j2].1@,
                                                    asn,
                                                    rel,
                                                ) && ts_j0[t3].2 == rel.spec_invert();
                                            assert(to_send@[t3] == ts_j0[t3]);
                                        } else {
                                            let t2: int = if rel is Customers {
                                                0
                                            } else if rel is Peers {
                                                1
                                            } else {
                                                2
                                            };
                                            assert(rels@[t2] == rel);
                                            assert(as_obj@.spec_neighbors(rels@[t2]).contains(
                                                nbr,
                                            ));
                                        }
                                    }
                                    assert(spec_collected(
                                        to_send@,
                                        policy.local_rib.pairs(),
                                        j as int + 1,
                                        as_obj@,
                                        asn,
                                    ));
                                }
                                j = j + 1;
                                proof {
                                    assert(spec_collected(
                                        to_send@,
                                        policy.local_rib.pairs(),
                                        j as int,
                                        as_obj@,
                                        asn,
                                    ));
                                }
                            }
                            proof {
                                assert(spec_collected(
                                    to_send@,
                                    policy.local_rib.pairs(),
                                    m as int,
                                    as_obj@,
                                    asn,
                                ));
                                assert forall|pfx: Prefix, rel: Relationships, nbr: ASN|
                                    (g0[asn].local_rib.contains_key(pfx) && (rel is Customers
                                        || rel is Peers || rel is Providers)
                                        && as_obj@.spec_neighbors(rel).contains(
                                        nbr,
                                    )) implies exists|t3: int|
                                    0 <= t3 < to_send@.len() && (#[trigger] to_send@[t3]).0 == nbr
                                        && to_send@[t3].1@ == crate::policy::spec_send_ann(
                                        g0[asn].local_rib[pfx],
                                        asn,
                                        rel,
                                    ) && to_send@[t3].2 == rel.spec_invert() by {
                                    policy.local_rib.lemma_view_in_entries(pfx);
                                    let j2 = choose|j2: int|
                                        0 <= j2 < policy.local_rib.pairs().len() && (
                                        #[trigger] policy.local_rib.pairs()[j2]).0 == pfx;
                                    policy.local_rib.lemma_entry_in_view(j2);
                                    assert(policy.local_rib.pairs()[j2].1@ == g0[asn].local_rib[
                                        pfx
                                    ]);
                                }
                            }
                        },
                        None => {},
                    }
                },
                None => {},
            }
            let ghost pre_store = self.policy_store@;
            self.deliver(&to_send);
            proof {
                let dst = spec_deliveries_view(to_send@);
                assert forall|o: ASN, pfx: Prefix, rel: Relationships, nbr: ASN|
                    #![trigger g0[o].local_rib[pfx], old(self).as_graph.as_dict@[o].spec_neighbors(rel).contains(nbr)]
                    ((exists|i2: int|
                        0 <= i2 < i + 1 && (#[trigger] self.policy_store.pairs()[i2]).0 == o)
                        && g0.contains_key(o) && old(self).as_graph.as_dict@.contains_key(o)
                        && g0[o].local_rib.contains_key(pfx) && (rel is Customers || rel is Peers
                        || rel is Providers) && old(self).as_graph.as_dict@[o].spec_neighbors(
                        rel,
                    ).contains(nbr) && g0.contains_key(nbr)) implies spec_suffix_contains(
                    self.policy_store@[nbr].recv_q,
                    0,
                    (crate::policy::spec_send_ann(g0[o].local_rib[pfx], o, rel), rel.spec_invert()),
                ) by {
                    let item = (
                        crate::policy::spec_send_ann(g0[o].local_rib[pfx], o, rel),
                        rel.spec_invert(),
                    );
                    let i2 = choose|i2: int|
                        0 <= i2 < i + 1 && (#[trigger] self.policy_store.pairs()[i2]).0 == o;
                    if i2 < i {
                        // Delivered on an earlier turn; the queue only grew.
                        assert(spec_suffix_contains(pre_store[nbr].recv_q, 0, item));
                        let k = choose|k: int|
                            0 <= k < pre_store[nbr].recv_q.len() && (
                            #[trigger] pre_store[nbr].recv_q[k]) == item;
                        assert(self.policy_store@[nbr].recv_q.take(
                            pre_store[nbr].recv_q.len() as int,
                        ) == pre_store[nbr].recv_q);
                        assert(self.policy_store@[nbr].recv_q.take(
                            pre_store[nbr].recv_q.len() as int,
                        )[k] == self.policy_store@[nbr].recv_q[k]);
                    } else {
                        assert(o == asn);
                        let t3 = choose|t3: int|
                            0 <= t3 < to_send@.len() && (#[trigger] to_send@[t3]).0 == nbr
                                && to_send@[t3].1@ == crate::policy::spec_send_ann(
                                g0[asn].local_rib[pfx],
                                asn,
                                rel,
                            ) && to_send@[t3].2 == rel.spec_invert();
                        assert(dst[t3] == (nbr, to_send@[t3].1@, to_send@[t3].2));
                        assert(pre_store.contains_key(nbr));
                        assert(spec_suffix_contains(
                            self.policy_store@[nbr].recv_q,
                            pre_store[nbr].recv_q.len() as int,
                            item,
                        ));
                        let k = choose|k: int|
                            pre_store[nbr].recv_q.len() <= k < self.policy_store@[nbr].recv_q.len()
                                && (#[trigger] self.policy_store@[nbr].recv_q[k]) == item;
                    }
                }
            }
            i = i + 1;
        }
        proof {
            assert forall|o: ASN| g0.contains_key(o) implies exists|i2: int|
                0 <= i2 < n && (#[trigger] self.policy_store.pairs()[i2]).0 == o by {
                self.policy_store.lemma_view_in_entries(o);
            }
        }
    }

    /// Push stamped copies into their receivers' queues; copies addressed to
    /// an unknown AS are dropped. Every policy keeps its tables; queues are
    /// extended by exactly the listed copies.
    fn deliver(&mut self, to_send: &Vec<(ASN, Announcement, Relationships)>)
        requires
            old(self).wf(),
            forall|t: int| 0 <= t < to_send@.len() ==> (#[trigger] to_send@[t]).1@.prefix.wf(),
        ensures
            final(self).wf(),
            final(self).as_graph == old(self).as_graph,
            final(self).policy_store.pairs().len() == old(self).policy_store.pairs().len(),
            forall|j: int|
                0 <= j < final(self).policy_store.pairs().len() ==> (#[trigger] final(self).policy_store.pairs()[j]).0 == old(self).policy_store.pairs()[j].0,
            spec_deliveries_effect(
                old(self).policy_store@,
                final(self).policy_store@,
                spec_deliveries_view(to_send@),
            ),
    {
        let ghost dsv = spec_deliveries_view(to_send@);
        let ghost mid = self.policy_store@;
        proof {
            assert forall|a: ASN| #[trigger] mid.contains_key(a) implies mid[a].recv_q.take(
                mid[a].recv_q.len() as int,
            ) == mid[a].recv_q by {
                assert(mid[a].recv_q.take(mid[a].recv_q.len() as int) =~= mid[a].recv_q);
            }
        }
        let mut t: usize = 0;
        while t < to_send.len()
            invariant
                self.policy_store.wf(),
                self.as_graph == old(self).as_graph,
                t <= to_send@.len(),
                mid == old(self).policy_store@,
                dsv == spec_deliveries_view(to_send@),
                dsv.len() == to_send@.len(),
                self.policy_store.pairs().len() == old(self).policy_store.pairs().len(),
                forall|j: int|
                    0 <= j < self.policy_store.pairs().len() ==> (
                    #[trigger] self.policy_store.pairs()[j]).0 == old(self).policy_store.pairs()[j].0,
                forall|t2: int| 0 <= t2 < to_send@.len() ==> (#[trigger] to_send@[t2]).1@.prefix.wf(),
                spec_deliveries_effect(mid, self.policy_store@, dsv.take(t as int)),
            decreases to_send@.len() - t,
        {
            let ghost pre = self.policy_store@;
            let neighbor_asn = to_send[t].0;
            let rel = to_send[t].2;
            proof {
                assert(dsv[t as int] == (neighbor_asn, to_send@[t as int].1@, rel));
                assert(dsv.take(t as int + 1) =~= dsv.take(t as int).push(dsv[t as int]));
            }
            match self.policy_store.get_mut(&neighbor_asn) {
                Some(np) => {
                    np.receive_ann(to_send[t].1.clone_ann(), rel);
                    proof {
                        assert(self.policy_store@ =~= pre.insert(neighbor_asn, self.policy_store@[neighbor_asn]));
                    }
                },
                None => {},
            }
            proof {
                let cur = self.policy_store@;
                let dst = dsv.take(t as int + 1);
                assert forall|a: ASN| #[trigger] cur.contains_key(a) implies {
                    let pv = cur[a];
                    let mv = mid[a];
                    &&& pv.local_rib == mv.local_rib
                    &&& pv.ribs_in == mv.ribs_in
                    &&& pv.ribs_out == mv.ribs_out
                    &&& pv.settings == mv.settings
                    &&& pv.asn == mv.asn
                    &&& pv.extension == mv.extension
                    &&& pv.recv_q.len() >= mv.recv_q.len()
                    &&& pv.recv_q.take(mv.recv_q.len() as int) == mv.recv_q
                    &&& forall|k: int|
                        mv.recv_q.len() <= k < pv.recv_q.len() ==> spec_from_deliveries(
                            dst,
                            a,
                            #[trigger] pv.recv_q[k],
                        )
                } by {
                    assert(pre.contains_key(a));
                    if a == neighbor_asn && pre.contains_key(neighbor_asn) && cur[a].recv_q.len()
                        == pre[a].recv_q.len() + 1 {
                    }
                    let pv = cur[a];
                    let prev = pre[a];
                    let mv = mid[a];
                    assert(pv.recv_q.take(mv.recv_q.len() as int) == mv.recv_q) by {
                        if pv.recv_q.len() == prev.recv_q.len() + 1 && pv.recv_q.take(
                            prev.recv_q.len() as int,
                        ) == prev.recv_q {
                            assert(pv.recv_q.take(mv.recv_q.len() as int) =~= prev.recv_q.take(
                                mv.recv_q.len() as int,
                            ));
                        }
                    }
                    assert forall|k: int|
                        mv.recv_q.len() <= k < pv.recv_q.len() implies spec_from_deliveries(
                        dst,
                        a,
                        #[trigger] pv.recv_q[k],
                    ) by {
                        if k < prev.recv_q.len() {
                            assert(pv.recv_q[k] == prev.recv_q[k]) by {
                                if pv.recv_q.len() == prev.recv_q.len() + 1 && pv.recv_q.take(
                                    prev.recv_q.len() as int,
                                ) == prev.recv_q {
                                    assert(pv.recv_q.take(prev.recv_q.len() as int)[k]
                                        == pv.recv_q[k]);
                                }
                            }
                            assert(spec_from_deliveries(dsv.take(t as int), a, prev.recv_q[k]));
                            let t2 = choose|t2: int|
                                0 <= t2 < dsv.take(t as int).len() && (#[trigger] dsv.take(
                                    t as int,
                                )[t2]).0 == a && (dsv.take(t as int)[t2].1, dsv.take(t as int)[t2].2)
                                    == prev.recv_q[k];
                            assert(dst[t2] == dsv.take(t as int)[t2]);
                        } else {
                            assert(a == neighbor_asn);
                            assert(pv.recv_q[k] == (to_send@[t as int].1@, rel));
                            assert(dst[t as int] == dsv[t as int]);
                        }
                    }
                }
                assert forall|t2: int|
                    0 <= t2 < dst.len() && mid.contains_key((#[trigger] dst[t2]).0) implies spec_suffix_contains(
                    cur[dst[t2].0].recv_q,
                    mid[dst[t2].0].recv_q.len() as int,
                    (dst[t2].1, dst[t2].2),
                ) by {
                    if t2 < t {
                        assert(dst[t2] == dsv.take(t as int)[t2]);
                        assert(spec_suffix_contains(
                            pre[dst[t2].0].recv_q,
                            mid[dst[t2].0].recv_q.len() as int,
                            (dst[t2].1, dst[t2].2),
                        ));
                        let k = choose|k: int|
                            mid[dst[t2].0].recv_q.len() <= k < pre[dst[t2].0].recv_q.len() && (
                            #[trigger] pre[dst[t2].0].recv_q[k]) == (dst[t2].1, dst[t2].2);
                        assert(cur[dst[t2].0].recv_q[k] == pre[dst[t2].0].recv_q[k]) by {
                            if dst[t2].0 == neighbor_asn && cur[neighbor_asn].recv_q.len() == pre[
                                neighbor_asn].recv_q.len() + 1 && cur[neighbor_asn].recv_q.take(
                                pre[neighbor_asn].recv_q.len() as int,
                            ) == pre[neighbor_asn].recv_q {
                                assert(cur[neighbor_asn].recv_q.take(
                                    pre[neighbor_asn].recv_q.len() as int,
                                )[k] == cur[neighbor_asn].recv_q[k]);
                            }
                        }
                    } else {
                        assert(t2 == t);
                        assert(dst[t2] == dsv[t as int]);
                        assert(dst[t2].0 == neighbor_asn);
                        assert(pre.contains_key(neighbor_asn));
                        let k = pre[neighbor_asn].recv_q.len() as int;
                        assert(cur[neighbor_asn].recv_q[k] == (to_send@[t as int].1@, rel));
                        assert(mid[neighbor_asn].recv_q.len() <= k);
                    }
                }
            }
            t = t + 1;
        }
        proof {
            assert(dsv.take(to_send@.len() as int) =~= dsv);
        }
    }

    /// Drain and process one AS's receive queue, delivering the copies its
    /// accepted routes produce: one per-AS turn of a phase.
    fn process_asn(&mut self, asn: ASN)
        requires
            old(self).wf(),
        ensures
            final(self).wf(),
            final(self).as_graph == old(self).as_graph,
            spec_asn_step(*old(self), *final(self), asn),
    {
        let ghost mut p1g: Option<Policy> = None;
        match self.as_graph.get(&asn) {
            Some(as_obj) => {
                let ds = match self.policy_store.get_mut(&asn) {
                    Some(p) => {
                        let ds = p.process_incoming_anns(as_obj, &self.as_graph);
                        proof {
                            p1g = Some(*p);
                        }
                        Some(ds)
                    },
                    None => None,
                };
                match ds {
                    Some(ds) => {
                        let ghost mid_store = self.policy_store@;
                        self.deliver(&ds);
                        proof {
                            let p1 = p1g.unwrap();
                            assert(mid_store =~= old(self).policy_store@.insert(asn, p1@));
                            assert(spec_deliveries_effect(
                                old(self).policy_store@.insert(asn, p1@),
                                self.policy_store@,
                                spec_deliveries_view(ds@),
                            ));
                            let s0 = choose|s0: Policy|
                                {
                                    &&& s0.local_rib@ == old(self).policy_store@[asn].local_rib
                                    &&& s0.ribs_in@ == old(self).policy_store@[asn].ribs_in
                                    &&& s0.ribs_out@ == old(self).policy_store@[asn].ribs_out
                                    &&& s0.recv_q@.len() == 0
                                    &&& s0.settings == old(self).policy_store@[asn].settings
                                    &&& s0.asn == old(self).policy_store@[asn].asn
                                    &&& s0.extension == old(self).policy_store@[asn].extension
                                    &&& #[trigger] spec_process_queue(
                                        s0,
                                        p1,
                                        spec_deliveries_view(ds@),
                                        old(self).policy_store@[asn].recv_q,
                                        old(self).as_graph.as_dict@[asn],
                                    )
                                };
                            assert(spec_process_queue(
                                s0,
                                p1,
                                spec_deliveries_view(ds@),
                                old(self).policy_store@[asn].recv_q,
                                old(self).as_graph.as_dict@[asn],
                            ));
                            assert(spec_asn_step(*old(self), *self, asn));
                        }
                    },
                    None => {
                        proof {
                            assert(spec_asn_step(*old(self), *self, asn));
                        }
                    },
                }
            },
            None => {
                proof {
                    assert(spec_asn_step(*old(self), *self, asn));
                }
            },
        }
    }

    /// One three-phase round: to providers (deepest customers first), to
    /// peers, then to customers (tier-1 first). The final state is a chain
    /// of per-AS turns in exactly that visit order.
    fn propagate_round(&mut self)
        requires
            old(self).wf(),
        ensures
            final(self).wf(),
            final(self).as_graph == old(self).as_graph,
            spec_engine_steps(*old(self), *final(self), spec_round_order(old(self).as_graph)),
    {
        let ghost start = *self;
        let ghost layers = self.as_graph.propagation_ranks@;
        // To-providers phase: reverse rank order.
        let nk = self.as_graph.propagation_ranks.len();
        proof {
            assert(layers.skip(nk as int) =~= Seq::<Vec<ASN>>::empty());
            assert(spec_engine_steps(start, *self, spec_flat_rev(layers.skip(nk as int))));
        }
        let mut k: usize = nk;
        while k > 0
            invariant
                self.wf(),
                self.as_graph == old(self).as_graph,
                start == *old(self),
                layers == old(self).as_graph.propagation_ranks@,
                k <= nk,
                nk == layers.len(),
                spec_engine_steps(start, *self, spec_flat_rev(layers.skip(k as int))),
            decreases k,
        {
            k = k - 1;
            let ghost done = spec_flat_rev(layers.skip(k as int + 1));
            let layer_len = self.as_graph.propagation_ranks[k].len();
            let mut j: usize = 0;
            proof {
                assert(done + layers[k as int]@.take(0) =~= done);
            }
            while j < layer_len
                invariant
                    self.wf(),
                    self.as_graph == old(self).as_graph,
                    start == *old(self),
                    layers == old(self).as_graph.propagation_ranks@,
                    k < nk,
                    nk == layers.len(),
                    j <= layer_len,
                    layer_len == layers[k as int]@.len(),
                    done == spec_flat_rev(layers.skip(k as int + 1)),
                    spec_engine_steps(start, *self, done + layers[k as int]@.take(j as int)),
                decreases layer_len - j,
            {
                let ghost prev = *self;
                let asn = self.as_graph.propagation_ranks[k][j];
                self.process_asn(asn);
                proof {
                    lemma_steps_snoc(
                        start,
                        prev,
                        *self,
                        done + layers[k as int]@.take(j as int),
                        asn,
                    );
                    assert((done + layers[k as int]@.take(j as int)).push(asn) =~= done + layers[
                        k as int
                    ]@.take(j as int + 1));
                }
                j = j + 1;
            }
            proof {
                assert(layers[k as int]@.take(layer_len as int) =~= layers[k as int]@);
                lemma_flat_rev_unsnoc(layers.skip(k as int));
                assert(layers.skip(k as int).drop_first() =~= layers.skip(k as int + 1));
                assert(layers.skip(k as int)[0] == layers[k as int]);
                assert(done + layers[k as int]@ =~= spec_flat_rev(layers.skip(k as int)));
            }
        }
        proof {
            assert(layers.skip(0) =~= layers);
        }
        // To-peers phase: every AS.
        let ghost done1 = spec_flat_rev(layers);
        let asns = self.as_graph.asns();
        let ghost keys = Seq::new(
            old(self).as_graph.as_dict.pairs().len(),
            |i: int| old(self).as_graph.as_dict.pairs()[i].0,
        );
        proof {
            assert(asns@ =~= keys);
            assert(done1 + keys.take(0) =~= done1);
        }
        let mut j: usize = 0;
        while j < asns.len()
            invariant
                self.wf(),
                self.as_graph == old(self).as_graph,
                start == *old(self),
                layers == old(self).as_graph.propagation_ranks@,
                j <= asns@.len(),
                asns@ == keys,
                done1 == spec_flat_rev(layers),
                spec_engine_steps(start, *self, done1 + keys.take(j as int)),
            decreases asns@.len() - j,
        {
            let ghost prev = *self;
            let asn = asns[j];
            self.process_asn(asn);
            proof {
                lemma_steps_snoc(start, prev, *self, done1 + keys.take(j as int), asn);
                assert((done1 + keys.take(j as int)).push(asn) =~= done1 + keys.take(j as int + 1));
            }
            j = j + 1;
        }
        proof {
            assert(keys.take(keys.len() as int) =~= keys);
        }
        // To-customers phase: forward rank order.
        let ghost done2 = done1 + keys;
        let nk = self.as_graph.propagation_ranks.len();
        proof {
            assert(layers.take(0) =~= Seq::<Vec<ASN>>::empty());
            assert(done2 + spec_flat_fwd(layers.take(0)) =~= done2);
        }
        let mut k: usize = 0;
        while k < nk
            invariant
                self.wf(),
                self.as_graph == old(self).as_graph,
                start == *old(self),
                layers == old(self).as_graph.propagation_ranks@,
                k <= nk,
                nk == layers.len(),
                done2 == done1 + keys,
                done1 == spec_flat_rev(layers),
                keys == Seq::new(
                    old(self).as_graph.as_dict.pairs().len(),
                    |i: int| old(self).as_graph.as_dict.pairs()[i].0,
                ),
                spec_engine_steps(start, *self, done2 + spec_flat_fwd(layers.take(k as int))),
            decreases nk - k,
        {
            let ghost done3 = done2 + spec_flat_fwd(layers.take(k as int));
            let layer_len = self.as_graph.propagation_ranks[k].len();
            let mut j: usize = 0;
            proof {
                assert(done3 + layers[k as int]@.take(0) =~= done3);
            }
            while j < layer_len
                invariant
                    self.wf(),
                    self.as_graph == old(self).as_graph,
                    start == *old(self),
                    layers == old(self).as_graph.propagation_ranks@,
                    k < nk,
                    nk == layers.len(),
                    j <= layer_len,
                    layer_len == layers[k as int]@.len(),
                    done3 == done2 + spec_flat_fwd(layers.take(k as int)),
                    spec_engine_steps(start, *self, done3 + layers[k as int]@.take(j as int)),
                decreases layer_len - j,
            {
                let ghost prev = *self;
                let asn = self.as_graph.propagation_ranks[k][j];
                self.process_asn(asn);
                proof {
                    lemma_steps_snoc(
                        start,
                        prev,
                        *self,
                        done3 + layers[k as int]@.take(j as int),
                        asn,
                    );
                    assert((done3 + layers[k as int]@.take(j as int)).push(asn) =~= done3 + layers[
                        k as int
                    ]@.take(j as int + 1));
                }
                j = j + 1;
            }
            proof {
                assert(layers[k as int]@.take(layer_len as int) =~= layers[k as int]@);
                assert(layers.take(k as int + 1).drop_last() =~= layers.take(k as int));
                assert(layers.take(k as int + 1).last() == layers[k as int]);
                assert(done3 + layers[k as int]@ =~= done2 + spec_flat_fwd(layers.take(
                    k as int + 1,
                )));
            }
            k = k + 1;
        }
        proof {
            assert(layers.take(nk as int) =~= layers);
            assert(done2 + spec_flat_fwd(layers) =~= spec_round_order(old(self).as_graph));
        }
    }

    /// Run a number of propagation rounds: the final state is a chain of
    /// that many three-phase rounds; running zero rounds leaves the engine
    /// exactly as it was.
    pub fn run(&mut self, rounds: u32)
        requires
            old(self).wf(),
        ensures
            final(self).wf(),
            final(self).as_graph == old(self).as_graph,
            spec_run_steps(*old(self), *final(self), rounds as int),
            rounds == 0 ==> *final(self) == *old(self),
    {
        let ghost start = *self;
        let mut r: u32 = 0;
        while r < rounds
            invariant
                self.wf(),
                self.as_graph == old(self).as_graph,
                start == *old(self),
                r <= rounds,
                spec_run_steps(start, *self, r as int),
                r == 0 ==> *self == *old(self),
            decreases rounds - r,
        {
            let ghost prev = *self;
            self.propagate_round();
            proof {
                lemma_run_snoc(start, prev, *self, r as int);
            }
            r = r + 1;
        }
    }

    /// The stored AS path for a prefix at an AS, when both exist.
    pub fn rib_path(&self, asn: ASN, prefix: &Prefix) -> (r: Option<Vec<ASN>>)
        requires
            self.wf(),
        ensures
            match r {
                Some(path) => self.policy_store@.contains_key(asn)
                    && self.policy_store@[asn].local_rib.contains_key(*prefix) && path@
                    == self.policy_store@[asn].local_rib[*prefix].as_path,
                None => !self.policy_store@.contains_key(asn) || !self.policy_store@[
                    asn].local_rib.contains_key(*prefix),
            },
    {
        match self.policy_store.get(&asn) {
            Some(p) => {
                match p.local_rib.get(prefix) {
                    Some(ann) => Some(clone_u32_vec(&ann.as_path)),
                    None => None,
                }
            },
            None => None,
        }
    }

    /// Whether an AS holds any route for a prefix.
    pub fn has_route(&self, asn: ASN, prefix: &Prefix) -> (r: bool)
        requires
            self.wf(),
        ensures
            r == (self.policy_store@.contains_key(asn) && self.policy_store@[
                asn].local_rib.contains_key(*prefix)),
    {
        match self.rib_path(asn, prefix) {
            Some(_) => true,
            None => false,
        }
    }

    /// A snapshot of every AS's local RIB: for each AS, exactly the stored
    /// prefixes with their AS paths, in table order.
    pub fn get_local_rib_snapshot(&self) -> (r: Vec<(ASN, Vec<(Prefix, Vec<ASN>)>)>)
        requires
            self.wf(),
        ensures
            r@.len() == self.policy_store.pairs().len(),
            forall|i: int|
                0 <= i < r@.len() ==> (#[trigger] r@[i]).0 == self.policy_store.pairs()[i].0,
            forall|i: int|
                0 <= i < r@.len() ==> (#[trigger] r@[i]).1@.len()
                    == self.policy_store.pairs()[i].1.local_rib.pairs().len(),
            forall|i: int, j: int|
                0 <= i < r@.len() && 0 <= j < r@[i].1@.len() ==> {
                    let entry = self.policy_store.pairs()[i].1.local_rib.pairs()[j];
                    &&& (#[trigger] r@[i].1@[j]).0 == entry.0
                    &&& r@[i].1@[j].1@ == entry.1@.as_path
                },
            forall|i: int, j: int|
                0 <= i < r@.len() && 0 <= j < r@[i].1@.len() ==> {
                    let p = (#[trigger] r@[i].1@[j]).0;
                    &&& self.policy_store@.contains_key(r@[i].0)
                    &&& self.policy_store@[r@[i].0].local_rib.contains_key(p)
                    &&& r@[i].1@[j].1@ == self.policy_store@[r@[i].0].local_rib[p].as_path
                },
    {
        let mut r: Vec<(ASN, Vec<(Prefix, Vec<ASN>)>)> = Vec::new();
        let n = self.policy_store.len();
        let mut i: usize = 0;
        while i < n
            invariant
                self.wf(),
                i <= n,
                n == self.policy_store.pairs().len(),
                r@.len() == i,
                forall|i2: int|
                    0 <= i2 < r@.len() ==> (#[trigger] r@[i2]).0
                        == self.policy_store.pairs()[i2].0,
                forall|i2: int|
                    0 <= i2 < r@.len() ==> (#[trigger] r@[i2]).1@.len()
                        == self.policy_store.pairs()[i2].1.local_rib.pairs().len(),
                forall|i2: int, j: int|
                    0 <= i2 < r@.len() && 0 <= j < r@[i2].1@.len() ==> {
                        let entry = self.policy_store.pairs()[i2].1.local_rib.pairs()[j];
                        &&& (#[trigger] r@[i2].1@[j]).0 == entry.0
                        &&& r@[i2].1@[j].1@ == entry.1@.as_path
                    },
                forall|i2: int, j: int|
                    0 <= i2 < r@.len() && 0 <= j < r@[i2].1@.len() ==> {
                        let p = (#[trigger] r@[i2].1@[j]).0;
                        &&& self.policy_store@.contains_key(r@[i2].0)
                        &&& self.policy_store@[r@[i2].0].local_rib.contains_key(p)
                        &&& r@[i2].1@[j].1@ == self.policy_store@[r@[i2].0].local_rib[p].as_path
                    },
            decreases n - i,
        {
            let asn = self.policy_store.asn_at(i);
            let policy = self.policy_store.policy_at(i);
            proof {
                self.policy_store.lemma_entry_in_view(i as int);
            }
            let mut inner: Vec<(Prefix, Vec<ASN>)> = Vec::new();
            let m = policy.local_rib.len();
            let mut j: usize = 0;
            while j < m
                invariant
                    self.wf(),
                    policy.wf(),
                    policy@ == self.policy_store@[asn],
                    self.policy_store@.contains_key(asn),
                    j <= m,
                    m == policy.local_rib.pairs().len(),
                    inner@.len() == j,
                    policy == self.policy_store.pairs()[i as int].1,
                    i < self.policy_store.pairs().len(),
                    forall|j2: int|
                        0 <= j2 < inner@.len() ==> {
                            let entry = policy.local_rib.pairs()[j2];
                            &&& (#[trigger] inner@[j2]).0 == entry.0
                            &&& inner@[j2].1@ == entry.1@.as_path
                        },
                    forall|j2: int|
                        0 <= j2 < inner@.len() ==> {
                            let p = (#[trigger] inner@[j2]).0;
                            &&& self.policy_store@[asn].local_rib.contains_key(p)
                            &&& inner@[j2].1@ == self.policy_store@[asn].local_rib[p].as_path
                        },
                decreases m - j,
            {
                let p = policy.local_rib.key_at(j);
                let ann = policy.local_rib.value_at(j);
                proof {
                    policy.local_rib.lemma_entry_in_view(j as int);
                }
                inner.push((p, clone_u32_vec(&ann.as_path)));
                j = j + 1;
            }
            r.push((asn, inner));
            i = i + 1;
        }
        r
    }
}

/// The three real neighbor kinds, in export order.
fn three_relationships() -> (r: Vec<Relationships>)
    ensures
        r@.len() == 3,
        r@[0] is Customers,
        r@[1] is Peers,
        r@[2] is Providers,
{
    let mut r: Vec<Relationships> = Vec::new();
    r.push(Relationships::Customers);
    r.push(Relationships::Peers);
    r.push(Relationships::Providers);
    r
}

/// The collected offers cover every stored route among the first `upto`
/// table entries, for every neighbor of every kind.
pub open spec fn spec_collected(
    to_send: Seq<(ASN, Announcement, Relationships)>,
    rib_pairs: Seq<(Prefix, Announcement)>,
    upto: int,
    asv: crate::as_graph::ASView,
    asn: ASN,
) -> bool {
    forall|j2: int, rel: Relationships, nbr: ASN|
        #![trigger rib_pairs[j2], asv.spec_neighbors(rel).contains(nbr)]
        (0 <= j2 < upto && (rel is Customers || rel is Peers || rel is Providers)
            && asv.spec_neighbors(rel).contains(nbr)) ==> exists|t3: int|
            0 <= t3 < to_send.len() && (#[trigger] to_send[t3]).0 == nbr && to_send[t3].1@
                == crate::policy::spec_send_ann(rib_pairs[j2].1@, asn, rel) && to_send[t3].2
                == rel.spec_invert()
}

/// Frame helper naming the storage invariants of a policy, used in loop
/// invariants over a shared borrow.
pub open spec fn spec_ribs_ok_frame(p: &crate::policy::Policy) -> bool {
    crate::policy::spec_ribs_in_ok(p.ribs_in@, p.asn) && crate::policy::spec_local_rib_ok(
        p.local_rib@,
        p.asn,
    )
}

} // verus!
