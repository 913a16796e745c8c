//! The AS graph: nodes, edges, cycle check, propagation ranks, provider
//! cones and ASN groups.

use vstd::prelude::*;

use crate::amap::{AssocMap, MapKey};
use crate::shared::{ASNGroups, CycleError, Relationships};
use crate::vecs::{clone_u32_vec, contains_asn, filter_present, push_unique};

verus! {

/// An autonomous-system number.
pub type ASN = u32;

/// Ghost view of an AS node.
#[verifier::ext_equal]
pub ghost struct ASView {
    pub asn: ASN,
    pub peers: Seq<ASN>,
    pub providers: Seq<ASN>,
    pub customers: Seq<ASN>,
    pub tier_1: bool,
    pub ixp: bool,
    pub provider_cone_asns: Seq<ASN>,
    pub propagation_rank: Option<usize>,
}

impl ASView {
    /// The neighbor list an AS exports for one relationship kind.
    pub open spec fn spec_neighbors(self, rel: Relationships) -> Seq<ASN> {
        match rel {
            Relationships::Providers => self.providers,
            Relationships::Peers => self.peers,
            Relationships::Customers => self.customers,
            _ => Seq::empty(),
        }
    }

    /// An AS is a stub when it has no customers.
    pub open spec fn spec_is_stub(self) -> bool {
        self.customers.len() == 0
    }

    /// An AS is multihomed when it has no customers but more than one
    /// provider or peer.
    pub open spec fn spec_is_multihomed(self) -> bool {
        self.customers.len() == 0 && self.providers.len() + self.peers.len() > 1
    }

    /// An AS is transit when it has customers.
    pub open spec fn spec_is_transit(self) -> bool {
        self.customers.len() > 0
    }
}

/// A node of the AS graph, with neighbor edges held as ASN lists.
#[derive(Debug, Clone)]
pub struct AS {
    pub asn: ASN,
    pub peers: Vec<ASN>,
    pub providers: Vec<ASN>,
    pub customers: Vec<ASN>,
    pub tier_1: bool,
    pub ixp: bool,
    pub provider_cone_asns: Vec<ASN>,
    pub propagation_rank: Option<usize>,
}

impl View for AS {
    type V = ASView;

    open spec fn view(&self) -> ASView {
        ASView {
            asn: self.asn,
            peers: self.peers@,
            providers: self.providers@,
            customers: self.customers@,
            tier_1: self.tier_1,
            ixp: self.ixp,
            provider_cone_asns: self.provider_cone_asns@,
            propagation_rank: self.propagation_rank,
        }
    }
}

impl AS {
    /// A fresh node with no edges.
    pub fn new(asn: ASN) -> (r: AS)
        ensures
            r@ == (ASView {
                asn,
                peers: Seq::<ASN>::empty(),
                providers: Seq::<ASN>::empty(),
                customers: Seq::<ASN>::empty(),
                tier_1: false,
                ixp: false,
                provider_cone_asns: Seq::<ASN>::empty(),
                propagation_rank: None,
            }),
    {
        let r = AS {
            asn,
            peers: Vec::new(),
            providers: Vec::new(),
            customers: Vec::new(),
            tier_1: false,
            ixp: false,
            provider_cone_asns: Vec::new(),
            propagation_rank: None,
        };
        proof {
            assert(r@ =~= ASView {
                asn,
                peers: Seq::<ASN>::empty(),
                providers: Seq::<ASN>::empty(),
                customers: Seq::<ASN>::empty(),
                tier_1: false,
                ixp: false,
                provider_cone_asns: Seq::<ASN>::empty(),
                propagation_rank: None,
            });
        }
        r
    }

    /// A node with the given neighbor lists.
    pub fn from_asn_sets(
        asn: ASN,
        peer_asns: Vec<ASN>,
        provider_asns: Vec<ASN>,
        customer_asns: Vec<ASN>,
    ) -> (r: AS)
        ensures
            r@.asn == asn,
            r@.peers == peer_asns@,
            r@.providers == provider_asns@,
            r@.customers == customer_asns@,
            !r@.tier_1,
            !r@.ixp,
            r@.provider_cone_asns.len() == 0,
            r@.propagation_rank is None,
    {
        AS {
            asn,
            peers: peer_asns,
            providers: provider_asns,
            customers: customer_asns,
            tier_1: false,
            ixp: false,
            provider_cone_asns: Vec::new(),
            propagation_rank: None,
        }
    }

    /// The neighbors this AS has under one relationship kind.
    pub fn get_neighbors(&self, rel: Relationships) -> (r: Vec<ASN>)
        ensures
            r@ == self@.spec_neighbors(rel),
    {
        match rel {
            Relationships::Providers => clone_u32_vec(&self.providers),
            Relationships::Peers => clone_u32_vec(&self.peers),
            Relationships::Customers => clone_u32_vec(&self.customers),
            _ => {
                let r: Vec<ASN> = Vec::new();
                r
            },
        }
    }

    /// Whether the AS has no customers.
    pub fn is_stub(&self) -> (r: bool)
        ensures
            r == self@.spec_is_stub(),
    {
        self.customers.len() == 0
    }

    /// Whether the AS has no customers but several providers or peers.
    pub fn is_multihomed(&self) -> (r: bool)
        ensures
            r == self@.spec_is_multihomed(),
    {
        self.customers.len() == 0 && (self.providers.len() > 1 || self.peers.len() > 1 || (
        self.providers.len() == 1 && self.peers.len() == 1))
    }

    /// Whether the AS has customers.
    pub fn is_transit(&self) -> (r: bool)
        ensures
            r == self@.spec_is_transit(),
    {
        self.customers.len() > 0
    }

    /// All neighbor ASNs, without duplicates.
    pub fn neighbor_asns(&self) -> (r: Vec<ASN>)
        ensures
            forall|y: ASN|
                r@.contains(y) <==> (self@.peers.contains(y) || self@.providers.contains(y)
                    || self@.customers.contains(y)),
            r@.no_duplicates(),
    {
        let mut r: Vec<ASN> = Vec::new();
        let mut i: usize = 0;
        while i < self.peers.len()
            invariant
                i <= self.peers.len(),
                r@.no_duplicates(),
                forall|y: ASN| r@.contains(y) <==> self.peers@.take(i as int).contains(y),
            decreases self.peers.len() - i,
        {
            proof {
                assert(self.peers@.take(i as int + 1) =~= self.peers@.take(i as int).push(
                    self.peers@[i as int],
                ));
                crate::vecs::lemma_push_contains(self.peers@.take(i as int), self.peers@[i as int]);
            }
            push_unique(&mut r, self.peers[i]);
            i = i + 1;
        }
        proof {
            assert(self.peers@.take(self.peers@.len() as int) =~= self.peers@);
        }
        let mut i: usize = 0;
        while i < self.providers.len()
            invariant
                i <= self.providers.len(),
                r@.no_duplicates(),
                forall|y: ASN|
                    r@.contains(y) <==> (self.peers@.contains(y) || self.providers@.take(
                        i as int,
                    ).contains(y)),
            decreases self.providers.len() - i,
        {
            proof {
                assert(self.providers@.take(i as int + 1) =~= self.providers@.take(i as int).push(
                    self.providers@[i as int],
                ));
                crate::vecs::lemma_push_contains(
                    self.providers@.take(i as int),
                    self.providers@[i as int],
                );
            }
            push_unique(&mut r, self.providers[i]);
            i = i + 1;
        }
        proof {
            assert(self.providers@.take(self.providers@.len() as int) =~= self.providers@);
        }
        let mut i: usize = 0;
        while i < self.customers.len()
            invariant
                i <= self.customers.len(),
                r@.no_duplicates(),
                forall|y: ASN|
                    r@.contains(y) <==> (self.peers@.contains(y) || self.providers@.contains(y)
                        || self.customers@.take(i as int).contains(y)),
            decreases self.customers.len() - i,
        {
            proof {
                assert(self.customers@.take(i as int + 1) =~= self.customers@.take(i as int).push(
                    self.customers@[i as int],
                ));
                crate::vecs::lemma_push_contains(
                    self.customers@.take(i as int),
                    self.customers@[i as int],
                );
            }
            push_unique(&mut r, self.customers[i]);
            i = i + 1;
        }
        proof {
            assert(self.customers@.take(self.customers@.len() as int) =~= self.customers@);
        }
        r
    }

    /// A copy of the peer list.
    pub fn peer_asns(&self) -> (r: Vec<ASN>)
        ensures
            r@ == self@.peers,
    {
        clone_u32_vec(&self.peers)
    }

    /// A copy of the provider list.
    pub fn provider_asns(&self) -> (r: Vec<ASN>)
        ensures
            r@ == self@.providers,
    {
        clone_u32_vec(&self.providers)
    }

    /// A copy of the customer list.
    pub fn customer_asns(&self) -> (r: Vec<ASN>)
        ensures
            r@ == self@.customers,
    {
        clone_u32_vec(&self.customers)
    }
}

/// Per-AS record handed to graph construction.
#[derive(Debug, Clone)]
pub struct ASBuilder {
    pub asn: ASN,
    pub peer_asns: Vec<ASN>,
    pub provider_asns: Vec<ASN>,
    pub customer_asns: Vec<ASN>,
    pub tier_1: bool,
    pub ixp: bool,
}

impl ASBuilder {
    /// A builder with no edges.
    pub fn new(asn: ASN) -> (r: ASBuilder)
        ensures
            r.asn == asn,
            r.peer_asns@.len() == 0,
            r.provider_asns@.len() == 0,
            r.customer_asns@.len() == 0,
            !r.tier_1,
            !r.ixp,
    {
        ASBuilder {
            asn,
            peer_asns: Vec::new(),
            provider_asns: Vec::new(),
            customer_asns: Vec::new(),
            tier_1: false,
            ixp: false,
        }
    }

    /// Replace the peer list.
    pub fn with_peers(self, peers: Vec<ASN>) -> (r: ASBuilder)
        ensures
            r == (ASBuilder { peer_asns: peers, ..self }),
    {
        ASBuilder { peer_asns: peers, ..self }
    }

    /// Replace the provider list.
    pub fn with_providers(self, providers: Vec<ASN>) -> (r: ASBuilder)
        ensures
            r == (ASBuilder { provider_asns: providers, ..self }),
    {
        ASBuilder { provider_asns: providers, ..self }
    }

    /// Replace the customer list.
    pub fn with_customers(self, customers: Vec<ASN>) -> (r: ASBuilder)
        ensures
            r == (ASBuilder { customer_asns: customers, ..self }),
    {
        ASBuilder { customer_asns: customers, ..self }
    }

    /// Mark the AS as tier-1.
    pub fn as_tier_1(self) -> (r: ASBuilder)
        ensures
            r == (ASBuilder { tier_1: true, ..self }),
    {
        ASBuilder { tier_1: true, ..self }
    }

    /// A builder from neighbor lists.
    pub fn from_asn_sets(
        asn: ASN,
        peers: Vec<ASN>,
        providers: Vec<ASN>,
        customers: Vec<ASN>,
    ) -> (r: ASBuilder)
        ensures
            r.asn == asn,
            r.peer_asns == peers,
            r.provider_asns == providers,
            r.customer_asns == customers,
            !r.tier_1,
            !r.ixp,
    {
        ASBuilder {
            asn,
            peer_asns: peers,
            provider_asns: providers,
            customer_asns: customers,
            tier_1: false,
            ixp: false,
        }
    }
}

impl MapKey for ASNGroups {
    fn key_eq(&self, other: &ASNGroups) -> (r: bool)
        ensures
            r == (*self == *other),
    {
        *self == *other
    }
}

/// The node an ASBuilder describes once neighbors absent from the graph are
/// dropped.
pub open spec fn spec_built_node(b: ASBuilder, present: Seq<ASN>) -> ASView {
    ASView {
        asn: b.asn,
        peers: b.peer_asns@.filter(|x: ASN| present.contains(x)),
        providers: b.provider_asns@.filter(|x: ASN| present.contains(x)),
        customers: b.customer_asns@.filter(|x: ASN| present.contains(x)),
        tier_1: b.tier_1,
        ixp: b.ixp,
        provider_cone_asns: Seq::empty(),
        propagation_rank: None,
    }
}

/// The mapping from ASNs to AS nodes, plus the rank layers and ASN groups
/// computed over it.
#[derive(Debug, Clone)]
pub struct ASGraph {
    pub as_dict: AssocMap<ASN, AS>,
    pub propagation_ranks: Vec<Vec<ASN>>,
    pub asn_groups: AssocMap<ASNGroups, Vec<ASN>>,
}

impl ASGraph {
    /// The node table invariant: distinct keys, and each node stored under
    /// its own ASN.
    pub open spec fn wf(&self) -> bool {
        &&& self.as_dict.wf()
        &&& self.asn_groups.wf()
        &&& forall|a: ASN| #[trigger] self.as_dict@.contains_key(a) ==> self.as_dict@[a].asn == a
    }

    /// An empty graph.
    pub fn new() -> (r: ASGraph)
        ensures
            r.wf(),
            r.as_dict@ =~= Map::<ASN, ASView>::empty(),
            r.propagation_ranks@.len() == 0,
    {
        ASGraph {
            as_dict: AssocMap::new(),
            propagation_ranks: Vec::new(),
            asn_groups: AssocMap::new(),
        }
    }

    /// The node with a given ASN, if present.
    pub fn get(&self, asn: &ASN) -> (r: Option<&AS>)
        requires
            self.wf(),
        ensures
            match r {
                Some(a) => self.as_dict@.contains_key(*asn) && a@ == self.as_dict@[*asn],
                None => !self.as_dict@.contains_key(*asn),
            },
    {
        self.as_dict.get(asn)
    }

    /// A mutable borrow of the node with a given ASN.
    pub fn get_mut(&mut self, asn: &ASN) -> (r: Option<&mut AS>)
        requires
            old(self).wf(),
        ensures
            final(self).propagation_ranks == old(self).propagation_ranks,
            final(self).asn_groups == old(self).asn_groups,
            match r {
                Some(a) => {
                    &&& old(self).as_dict@.contains_key(*asn)
                    &&& (*a)@ == old(self).as_dict@[*asn]
                    &&& final(self).as_dict@ =~= old(self).as_dict@.insert(*asn, final(a)@)
                    &&& (final(a)@.asn == *asn ==> final(self).wf())
                },
                None => {
                    &&& !old(self).as_dict@.contains_key(*asn)
                    &&& final(self).as_dict@ == old(self).as_dict@
                    &&& final(self).wf()
                },
            },
    {
        self.as_dict.get_mut(asn)
    }

    /// Add a node, replacing any node with the same ASN.
    pub fn insert(&mut self, as_obj: AS)
        requires
            old(self).wf(),
        ensures
            final(self).wf(),
            final(self).as_dict@ =~= old(self).as_dict@.insert(as_obj.asn, as_obj@),
            final(self).propagation_ranks == old(self).propagation_ranks,
            final(self).asn_groups == old(self).asn_groups,
    {
        let asn = as_obj.asn;
        self.as_dict.insert(asn, as_obj);
    }

    /// Number of ASes in the graph.
    pub fn len(&self) -> (r: usize)
        ensures
            r == self.as_dict.pairs().len(),
    {
        self.as_dict.len()
    }

    /// All ASNs, in insertion order.
    pub fn asns(&self) -> (r: Vec<ASN>)
        ensures
            r@.len() == self.as_dict.pairs().len(),
            forall|i: int| 0 <= i < r@.len() ==> r@[i] == self.as_dict.pairs()[i].0,
    {
        self.as_dict.keys()
    }

    /// Build a graph from builder records: one node per builder, with
    /// neighbor ASNs that match no builder silently dropped.
    pub fn build(builders: Vec<ASBuilder>) -> (r: ASGraph)
        requires
            forall|i: int, j: int|
                0 <= i < j < builders@.len() ==> (#[trigger] builders@[i]).asn != (
                #[trigger] builders@[j]).asn,
        ensures
            r.wf(),
            r.propagation_ranks@.len() == 0,
            forall|asn: ASN|
                r.as_dict@.contains_key(asn) <==> exists|i: int|
                    0 <= i < builders@.len() && (#[trigger] builders@[i]).asn == asn,
            forall|i: int|
                0 <= i < builders@.len() ==> r.as_dict@[(#[trigger] builders@[i]).asn]
                    =~= spec_built_node(
                    builders@[i],
                    builders@.map(|j: int, b: ASBuilder| b.asn),
                ),
    {
        let ghost all_asns = builders@.map(|j: int, b: ASBuilder| b.asn);
        let mut asn_list: Vec<ASN> = Vec::new();
        let mut i: usize = 0;
        while i < builders.len()
            invariant
                i <= builders.len(),
                asn_list@ =~= builders@.map(|j: int, b: ASBuilder| b.asn).take(i as int),
            decreases builders.len() - i,
        {
            asn_list.push(builders[i].asn);
            i = i + 1;
        }
        proof {
            assert(asn_list@ =~= all_asns);
        }
        let mut g = ASGraph::new();
        let mut i: usize = 0;
        while i < builders.len()
            invariant
                i <= builders.len(),
                g.wf(),
                g.propagation_ranks@.len() == 0,
                asn_list@ == all_asns,
                all_asns == builders@.map(|j: int, b: ASBuilder| b.asn),
                forall|i2: int, j2: int|
                    0 <= i2 < j2 < builders@.len() ==> (#[trigger] builders@[i2]).asn != (
                    #[trigger] builders@[j2]).asn,
                forall|asn: ASN|
                    g.as_dict@.contains_key(asn) <==> exists|j: int|
                        0 <= j < i && (#[trigger] builders@[j]).asn == asn,
                forall|j: int|
                    0 <= j < i ==> g.as_dict@[(#[trigger] builders@[j]).asn] =~= spec_built_node(
                        builders@[j],
                        all_asns,
                    ),
            decreases builders.len() - i,
        {
            let b = &builders[i];
            let node = AS {
                asn: b.asn,
                peers: filter_present(&b.peer_asns, &asn_list),
                providers: filter_present(&b.provider_asns, &asn_list),
                customers: filter_present(&b.customer_asns, &asn_list),
                tier_1: b.tier_1,
                ixp: b.ixp,
                provider_cone_asns: Vec::new(),
                propagation_rank: None,
            };
            proof {
                assert(node@ =~= spec_built_node(builders@[i as int], all_asns));
            }
            g.insert(node);
            i = i + 1;
        }
        g
    }
}


/// No provider listed by this AS is present in the graph.
pub open spec fn spec_no_present_providers(g: Map<ASN, ASView>, a: ASN) -> bool {
    forall|p: ASN| (#[trigger] g[a].providers.contains(p)) ==> !g.contains_key(p)
}

/// A rank map respects the provider edges of a graph: every ranked AS has
/// each of its present providers ranked strictly lower.
pub open spec fn spec_rank_respects(g: Map<ASN, ASView>, rank: Map<ASN, nat>) -> bool {
    &&& forall|a: ASN| #[trigger] rank.contains_key(a) ==> g.contains_key(a)
    &&& forall|a: ASN, p: ASN|
        rank.contains_key(a) && g.contains_key(p) && #[trigger] g[a].providers.contains(p)
            && g.contains_key(a) ==> rank.contains_key(p) && rank[p] < rank[a]
}

/// A closed walk along provider edges: each step moves from an AS to one of
/// its providers, and the walk returns to its start.
pub open spec fn spec_is_provider_cycle(g: Map<ASN, ASView>, path: Seq<ASN>) -> bool {
    &&& path.len() >= 2
    &&& path[0] == path.last()
    &&& forall|i: int|
        0 <= i < path.len() - 1 ==> g.contains_key(#[trigger] path[i]) && g[path[i]].providers.contains(
            path[i + 1],
        )
}

/// Along a provider walk under a complete respecting rank map, ranks drop by
/// at least one per step.
proof fn lemma_rank_descends(g: Map<ASN, ASView>, rank: Map<ASN, nat>, path: Seq<ASN>, j: int)
    requires
        spec_rank_respects(g, rank),
        forall|a: ASN| g.contains_key(a) ==> #[trigger] rank.contains_key(a),
        spec_is_provider_cycle(g, path),
        0 <= j < path.len(),
    ensures
        rank.contains_key(path[j]),
        rank[path[j]] + j <= rank[path[0]],
    decreases j,
{
    if j == 0 {
        assert(g.contains_key(path[0]));
    } else {
        lemma_rank_descends(g, rank, path, j - 1);
        if j < path.len() - 1 {
            assert(g.contains_key(path[j]));
        } else {
            assert(path[j] == path[0]);
        }
        assert(g[path[j - 1]].providers.contains(path[j]));
        assert(rank[path[j]] < rank[path[j - 1]]);
    }
}

/// A graph that admits a complete respecting rank map has no provider cycle.
pub proof fn lemma_complete_ranking_acyclic(g: Map<ASN, ASView>, rank: Map<ASN, nat>)
    requires
        spec_rank_respects(g, rank),
        forall|a: ASN| g.contains_key(a) ==> #[trigger] rank.contains_key(a),
    ensures
        forall|path: Seq<ASN>| !spec_is_provider_cycle(g, path),
{
    assert forall|path: Seq<ASN>| !spec_is_provider_cycle(g, path) by {
        if spec_is_provider_cycle(g, path) {
            lemma_rank_descends(g, rank, path, path.len() - 1);
            assert(rank[path[path.len() - 1]] + path.len() - 1 <= rank[path[0]]);
            assert(path[path.len() - 1] == path[0]);
        }
    }
}

impl ASGraph {
    /// Peel the provider DAG into layers, Kahn style: layer 0 holds the ASes
    /// with no present providers; each later layer holds the ASes all of
    /// whose present providers lie in earlier layers. ASes left over when no
    /// further layer can be formed (those on or below a provider cycle) are
    /// in no layer.
    fn peel_layers(&self) -> (r: (Vec<Vec<ASN>>, Vec<ASN>, Ghost<Map<ASN, nat>>))
        requires
            self.wf(),
        ensures
            ({
                let layers = r.0;
                let ranked = r.1;
                let rank = r.2@;
                &&& spec_rank_respects(self.as_dict@, rank)
                &&& ranked@.no_duplicates()
                &&& forall|a: ASN| ranked@.contains(a) <==> #[trigger] rank.contains_key(a)
                &&& forall|a: ASN| #[trigger] rank.contains_key(a) ==> self.as_dict@.contains_key(a)
                &&& forall|k: int, t: int|
                    0 <= k < layers@.len() && 0 <= t < layers@[k]@.len() ==> rank.contains_key(
                        #[trigger] layers@[k]@[t],
                    ) && rank[layers@[k]@[t]] == k
                &&& forall|a: ASN| #[trigger] rank.contains_key(a) ==> rank[a] < layers@.len()
                    && layers@[rank[a] as int]@.contains(a)
                &&& ranked@.len() == self.as_dict.pairs().len() ==> forall|a: ASN|
                    self.as_dict@.contains_key(a) ==> #[trigger] rank.contains_key(a)
                &&& ranked@.len() != self.as_dict.pairs().len() ==> forall|a: ASN|
                    self.as_dict@.contains_key(a) && !rank.contains_key(a)
                        ==> exists|p: ASN|
                        self.as_dict@.contains_key(p) && (#[trigger] self.as_dict@[a]).providers.contains(
                            p,
                        ) && !rank.contains_key(p)
                &&& forall|a: ASN|
                    self.as_dict@.contains_key(a) && #[trigger] spec_no_present_providers(
                        self.as_dict@,
                        a,
                    ) ==> rank.contains_key(a) && rank[a] == 0
            }),
    {
        let keys_v = self.asns();
        let ghost keys = keys_v@;
        proof {
            assert forall|i: int, j: int| 0 <= i < j < keys.len() implies keys[i] != keys[j] by {
                assert(self.as_dict.pairs()[i].0 != self.as_dict.pairs()[j].0);
            }
            assert(keys.no_duplicates());
            assert forall|i: int| 0 <= i < keys.len() implies self.as_dict@.contains_key(
                keys[i],
            ) by {
                self.as_dict.lemma_entry_in_view(i);
            }
            assert forall|a: ASN| self.as_dict@.contains_key(a) implies keys.contains(a) by {
                self.as_dict.lemma_view_in_entries(a);
                let i = choose|i: int|
                    0 <= i < self.as_dict.pairs().len() && (#[trigger] self.as_dict.pairs()[i]).0
                        == a;
                assert(keys[i] == a);
            }
        }
        let mut layers: Vec<Vec<ASN>> = Vec::new();
        let mut ranked: Vec<ASN> = Vec::new();
        let ghost mut rank: Map<ASN, nat> = Map::empty();
        let mut cur: usize = 0;
        loop
            invariant
                self.wf(),
                keys == keys_v@,
                keys.no_duplicates(),
                forall|i: int| 0 <= i < keys.len() ==> self.as_dict@.contains_key(#[trigger] keys[i]),
                forall|a: ASN| self.as_dict@.contains_key(a) ==> keys.contains(a),
                keys.len() == self.as_dict.pairs().len(),
                cur == layers@.len(),
                spec_rank_respects(self.as_dict@, rank),
                ranked@.no_duplicates(),
                forall|a: ASN| ranked@.contains(a) <==> #[trigger] rank.contains_key(a),
                forall|a: ASN| #[trigger] rank.contains_key(a) ==> self.as_dict@.contains_key(a),
                forall|a: ASN| #[trigger] rank.contains_key(a) ==> rank[a] < cur,
                cur >= 1 ==> forall|a: ASN|
                    self.as_dict@.contains_key(a) && #[trigger] spec_no_present_providers(
                        self.as_dict@,
                        a,
                    ) ==> rank.contains_key(a) && rank[a] == 0,
                cur <= ranked@.len(),
                forall|k: int, t: int|
                    0 <= k < layers@.len() && 0 <= t < layers@[k]@.len() ==> rank.contains_key(
                        #[trigger] layers@[k]@[t],
                    ) && rank[layers@[k]@[t]] == k,
                forall|a: ASN| #[trigger] rank.contains_key(a) ==> rank[a] < layers@.len()
                    && layers@[rank[a] as int]@.contains(a),
            decreases self.as_dict.pairs().len() - ranked@.len(),
        {
            proof {
                assert forall|x: ASN| ranked@.contains(x) implies keys.contains(x) by {
                    assert(rank.contains_key(x));
                    assert(self.as_dict@.contains_key(x));
                }
                crate::vecs::lemma_unique_subset_len(ranked@, keys);
            }
            let mut layer: Vec<ASN> = Vec::new();
            let mut j: usize = 0;
            while j < keys_v.len()
                invariant
                    self.wf(),
                    keys == keys_v@,
                    keys.no_duplicates(),
                    j <= keys.len(),
                    forall|i: int|
                        0 <= i < keys.len() ==> self.as_dict@.contains_key(#[trigger] keys[i]),
                    forall|a: ASN| ranked@.contains(a) <==> #[trigger] rank.contains_key(a),
                    forall|x: ASN| #[trigger] layer@.contains(x) ==> keys.take(j as int).contains(x),
                    layer@.no_duplicates(),
                    forall|x: ASN| #[trigger] layer@.contains(x) ==> self.as_dict@.contains_key(x)
                        && !rank.contains_key(x),
                    forall|x: ASN, p: ASN|
                        layer@.contains(x) && self.as_dict@.contains_key(p)
                            && #[trigger] self.as_dict@[x].providers.contains(p)
                            ==> rank.contains_key(p),
                    forall|j2: int|
                        0 <= j2 < j ==> rank.contains_key(#[trigger] keys[j2]) || layer@.contains(
                            keys[j2],
                        ) || (exists|q: ASN|
                            self.as_dict@.contains_key(q) && self.as_dict@[keys[j2]].providers.contains(
                                q,
                            ) && !(#[trigger] rank.contains_key(q))),
                decreases keys.len() - j,
            {
                let asn = keys_v[j];
                if !contains_asn(&ranked, asn) {
                    match self.as_dict.get(&asn) {
                        Some(node) => {
                            let mut ok = true;
                            let mut t: usize = 0;
                            while t < node.providers.len()
                                invariant
                                    self.wf(),
                                    self.as_dict@.contains_key(asn),
                                    node@ == self.as_dict@[asn],
                                    t <= node.providers.len(),
                                    forall|a: ASN|
                                        ranked@.contains(a) <==> #[trigger] rank.contains_key(a),
                                    ok ==> forall|ti: int|
                                        0 <= ti < t && self.as_dict@.contains_key(
                                            #[trigger] node.providers@[ti],
                                        ) ==> rank.contains_key(node.providers@[ti]),
                                    !ok ==> exists|q: ASN|
                                        self.as_dict@.contains_key(q)
                                            && self.as_dict@[asn].providers.contains(q)
                                            && !(#[trigger] rank.contains_key(q)),
                                decreases node.providers.len() - t,
                            {
                                let p = node.providers[t];
                                if self.as_dict.contains_key(&p) && !contains_asn(&ranked, p) {
                                    proof {
                                        assert(self.as_dict@[asn].providers.contains(p));
                                        assert(!rank.contains_key(p));
                                    }
                                    ok = false;
                                }
                                t = t + 1;
                            }
                            if ok {
                                proof {
                                    assert(keys.take(j as int + 1) =~= keys.take(j as int).push(
                                        keys[j as int],
                                    ));
                                    crate::vecs::lemma_push_contains(layer@, asn);
                                    if layer@.contains(asn) {
                                        assert(keys.take(j as int).contains(asn));
                                        let i = choose|i: int|
                                            0 <= i < j && keys.take(j as int)[i] == asn;
                                        assert(keys[i] == keys[j as int]);
                                        assert(false);
                                    }
                                    assert forall|x: ASN, p: ASN|
                                        layer@.push(asn).contains(x)
                                            && self.as_dict@.contains_key(p)
                                            && #[trigger] self.as_dict@[x].providers.contains(
                                            p,
                                        ) implies rank.contains_key(p) by {
                                        if x != asn && layer@.contains(x) {
                                        } else {
                                            assert(x == asn || layer@.contains(x));
                                            if x == asn {
                                                let ti = choose|ti: int|
                                                    0 <= ti < node.providers@.len()
                                                        && node.providers@[ti] == p;
                                            }
                                        }
                                    }
                                }
                                layer.push(asn);
                                proof {
                                    assert forall|x: ASN| #[trigger] layer@.contains(x) implies keys.take(
                                        j as int + 1,
                                    ).contains(x) by {
                                        crate::vecs::lemma_push_contains(
                                            keys.take(j as int),
                                            keys[j as int],
                                        );
                                    }
                                }
                            }
                        },
                        None => {},
                    }
                }
                proof {
                    assert forall|x: ASN| #[trigger] layer@.contains(x) implies keys.take(
                        j as int + 1,
                    ).contains(x) by {
                        assert(keys.take(j as int + 1) =~= keys.take(j as int).push(keys[j as int]));
                        crate::vecs::lemma_push_contains(keys.take(j as int), keys[j as int]);
                    }
                }
                j = j + 1;
            }
            if layer.len() == 0 {
                proof {
                    if ranked@.len() == self.as_dict.pairs().len() {
                        assert forall|x: ASN| ranked@.contains(x) implies keys.contains(x) by {
                            assert(rank.contains_key(x));
                            assert(self.as_dict@.contains_key(x));
                        }
                        crate::vecs::lemma_unique_equal_len_same_elems(ranked@, keys);
                        assert forall|a: ASN| self.as_dict@.contains_key(a) implies rank.contains_key(
                            a,
                        ) by {
                            assert(keys.contains(a));
                            assert(ranked@.contains(a));
                        }
                    }
                    assert forall|a: ASN|
                        self.as_dict@.contains_key(a) && #[trigger] spec_no_present_providers(
                            self.as_dict@,
                            a,
                        ) implies rank.contains_key(a) && rank[a] == 0 by {
                        if cur == 0 {
                            assert(keys.contains(a));
                            let j2 = choose|j2: int| 0 <= j2 < keys.len() && keys[j2] == a;
                            assert(rank.contains_key(keys[j2]) || layer@.contains(keys[j2]) || (
                            exists|q: ASN|
                                self.as_dict@.contains_key(q)
                                    && self.as_dict@[keys[j2]].providers.contains(q) && !(
                                #[trigger] rank.contains_key(q))));
                            assert(!layer@.contains(keys[j2]));
                            if exists|q: ASN|
                                self.as_dict@.contains_key(q)
                                    && self.as_dict@[keys[j2]].providers.contains(q) && !(
                                #[trigger] rank.contains_key(q)) {
                                let q = choose|q: ASN|
                                    self.as_dict@.contains_key(q)
                                        && self.as_dict@[keys[j2]].providers.contains(q) && !(
                                    #[trigger] rank.contains_key(q));
                                assert(!self.as_dict@.contains_key(q));
                            }
                        }
                    }
                    if ranked@.len() != self.as_dict.pairs().len() {
                        assert forall|a: ASN|
                            self.as_dict@.contains_key(a) && !rank.contains_key(a) implies exists|
                            p: ASN,
                        |
                            self.as_dict@.contains_key(p) && (
                            #[trigger] self.as_dict@[a]).providers.contains(p)
                                && !rank.contains_key(p) by {
                            assert(keys.contains(a));
                            let j2 = choose|j2: int| 0 <= j2 < keys.len() && keys[j2] == a;
                            assert(rank.contains_key(keys[j2]) || layer@.contains(keys[j2]) || (
                            exists|q: ASN|
                                self.as_dict@.contains_key(q)
                                    && self.as_dict@[keys[j2]].providers.contains(q) && !(
                                #[trigger] rank.contains_key(q))));
                            assert(!layer@.contains(keys[j2]));
                        }
                    }
                }
                return (layers, ranked, Ghost(rank));
            }
            let ghost pre_rank = rank;
            let ghost pre_ranked_len = ranked@.len();
            let mut t: usize = 0;
            while t < layer.len()
                invariant
                    self.wf(),
                    t <= layer.len(),
                    layer@.no_duplicates(),
                    forall|x: ASN| #[trigger] layer@.contains(x) ==> self.as_dict@.contains_key(x)
                        && !pre_rank.contains_key(x),
                    forall|x: ASN, p: ASN|
                        layer@.contains(x) && self.as_dict@.contains_key(p)
                            && #[trigger] self.as_dict@[x].providers.contains(p)
                            ==> pre_rank.contains_key(p),
                    forall|a: ASN| #[trigger] pre_rank.contains_key(a) ==> pre_rank[a] < cur,
                    spec_rank_respects(self.as_dict@, pre_rank),
                    rank =~= pre_rank.union_prefer_right(
                        Map::new(
                            |a: ASN| layer@.take(t as int).contains(a),
                            |a: ASN| cur as nat,
                        ),
                    ),
                    ranked@.len() == pre_ranked_len + t,
                    ranked@.no_duplicates(),
                    forall|a: ASN| ranked@.contains(a) <==> #[trigger] rank.contains_key(a),
                    spec_rank_respects(self.as_dict@, rank),
                    forall|a: ASN| #[trigger] rank.contains_key(a) ==> rank[a] <= cur,
                decreases layer.len() - t,
            {
                let a = layer[t];
                proof {
                    assert(layer@.contains(a));
                    assert(layer@.take(t as int + 1) =~= layer@.take(t as int).push(a));
                    crate::vecs::lemma_push_contains(layer@.take(t as int), a);
                    if ranked@.contains(a) {
                        assert(rank.contains_key(a));
                        if pre_rank.contains_key(a) {
                            assert(false);
                        }
                        assert(layer@.take(t as int).contains(a));
                        let i1 = choose|i: int| 0 <= i < t && layer@.take(t as int)[i] == a;
                        assert(layer@[i1] == a && layer@[t as int] == a);
                        assert(false);
                    }
                    crate::vecs::lemma_push_contains(ranked@, a);
                }
                ranked.push(a);
                proof {
                    let new_rank = rank.insert(a, cur as nat);
                    assert forall|x: ASN, p: ASN|
                        new_rank.contains_key(x) && self.as_dict@.contains_key(p)
                            && #[trigger] self.as_dict@[x].providers.contains(p)
                            && self.as_dict@.contains_key(x) implies new_rank.contains_key(p)
                        && new_rank[p] < new_rank[x] by {
                        if x == a {
                            assert(pre_rank.contains_key(p));
                            assert(pre_rank[p] < cur);
                            if layer@.take(t as int).contains(p) {
                                let ii = choose|ii: int|
                                    0 <= ii < t && layer@.take(t as int)[ii] == p;
                                assert(layer@[ii] == p);
                                assert(layer@.contains(p));
                                assert(!pre_rank.contains_key(p));
                                assert(false);
                            }
                            assert(rank.contains_key(p) && rank[p] == pre_rank[p]);
                            assert(p != a);
                        } else {
                            assert(rank.contains_key(x));
                            assert(rank.contains_key(p) && rank[p] < rank[x]);
                            if p == a {
                                assert(!pre_rank.contains_key(a));
                                assert(rank[a] == cur as nat || !rank.contains_key(a));
                                assert(false);
                            }
                        }
                    }
                    rank = new_rank;
                    assert(rank =~= pre_rank.union_prefer_right(
                        Map::new(
                            |x: ASN| layer@.take(t as int + 1).contains(x),
                            |x: ASN| cur as nat,
                        ),
                    ));
                }
                t = t + 1;
            }
            proof {
                assert(layer@.take(layer@.len() as int) =~= layer@);
                assert(ranked@.len() > pre_ranked_len);
                assert forall|x: ASN| ranked@.contains(x) implies keys.contains(x) by {
                    assert(rank.contains_key(x));
                    assert(self.as_dict@.contains_key(x));
                }
                crate::vecs::lemma_unique_subset_len(ranked@, keys);
            }
            let rl = ranked.len();
            proof {
                assert(cur < rl);
            }
            layers.push(layer);
            cur = cur + 1;
            proof {
                assert forall|k: int, tt: int|
                    0 <= k < layers@.len() && 0 <= tt < layers@[k]@.len() implies rank.contains_key(
                    #[trigger] layers@[k]@[tt],
                ) && rank[layers@[k]@[tt]] == k by {
                    if k < layers@.len() - 1 {
                        assert(layers@[k]@[tt] == old_layers_entry(layers@, k, tt));
                    } else {
                        assert(layers@[k] == layers@.last());
                        assert(layers@.last()@.contains(layers@.last()@[tt]));
                    }
                }
                assert forall|a: ASN| #[trigger] rank.contains_key(a) implies rank[a]
                    < layers@.len() && layers@[rank[a] as int]@.contains(a) by {
                    if pre_rank.contains_key(a) {
                        assert(layers@[rank[a] as int] == layers@.drop_last()[rank[a] as int]);
                    } else {
                        assert(layers@.last()@.contains(a));
                    }
                }
                assert forall|a: ASN|
                    self.as_dict@.contains_key(a) && #[trigger] spec_no_present_providers(
                        self.as_dict@,
                        a,
                    ) implies rank.contains_key(a) && rank[a] == 0 by {
                    if pre_rank.contains_key(a) {
                        assert(cur - 1 >= 1);
                        assert(pre_rank[a] == 0);
                        assert(!layer@.contains(a));
                        assert(!layer@.take(layer@.len() as int).contains(a));
                        assert(rank[a] == pre_rank[a]);
                    } else {
                        assert(cur - 1 == 0) by {
                            if cur - 1 >= 1 {
                                assert(pre_rank.contains_key(a));
                            }
                        }
                        assert(keys.contains(a));
                        let j2 = choose|j2: int| 0 <= j2 < keys.len() && keys[j2] == a;
                        assert(pre_rank.contains_key(keys[j2]) || layer@.contains(keys[j2]) || (
                        exists|q: ASN|
                            self.as_dict@.contains_key(q)
                                && self.as_dict@[keys[j2]].providers.contains(q) && !(
                            #[trigger] pre_rank.contains_key(q))));
                        if exists|q: ASN|
                            self.as_dict@.contains_key(q)
                                && self.as_dict@[keys[j2]].providers.contains(q) && !(
                            #[trigger] pre_rank.contains_key(q)) {
                            let q = choose|q: ASN|
                                self.as_dict@.contains_key(q)
                                    && self.as_dict@[keys[j2]].providers.contains(q) && !(
                                #[trigger] pre_rank.contains_key(q));
                            assert(!self.as_dict@.contains_key(q));
                        }
                        assert(layer@.contains(a));
                        assert(layer@.take(layer@.len() as int).contains(a));
                        assert(rank[a] == cur - 1);
                    }
                }
            }
        }
    }
}

impl ASGraph {
    /// Check the customer-provider subgraph for cycles. When the check
    /// passes, no AS lists itself as a customer and no closed walk along
    /// provider edges exists, so in particular no AS is its own provider.
    pub fn check_for_cycles(&self) -> (r: Result<(), CycleError>)
        requires
            self.wf(),
        ensures
            r is Ok ==> forall|path: Seq<ASN>| !spec_is_provider_cycle(self.as_dict@, path),
            r is Ok ==> forall|a: ASN|
                self.as_dict@.contains_key(a) ==> !(#[trigger] self.as_dict@[a]).customers.contains(
                    a,
                ),
            r is Err ==> spec_has_cp_cycle(self.as_dict@),
            r is Ok <==> !spec_has_cp_cycle(self.as_dict@),
    {
        let n = self.as_dict.len();
        let mut i: usize = 0;
        while i < n
            invariant
                self.wf(),
                n == self.as_dict.pairs().len(),
                i <= n,
                forall|j: int|
                    0 <= j < i ==> !(#[trigger] self.as_dict.pairs()[j]).1@.customers.contains(
                        self.as_dict.pairs()[j].1@.asn,
                    ),
            decreases n - i,
        {
            let node = self.as_dict.value_at(i);
            if contains_asn(&node.customers, node.asn) {
                proof {
                    self.as_dict.lemma_entry_in_view(i as int);
                    let k = self.as_dict.pairs()[i as int].0;
                    assert(self.as_dict@[k].asn == k);
                    assert(self.as_dict@.contains_key(k) && self.as_dict@[k].customers.contains(
                        k,
                    ));
                }
                return Err(CycleError);
            }
            i = i + 1;
        }
        let (layers, ranked, rank) = self.peel_layers();
        if ranked.len() == self.as_dict.len() {
            proof {
                lemma_complete_ranking_acyclic(self.as_dict@, rank@);
                assert forall|a: ASN| self.as_dict@.contains_key(a) implies !(
                #[trigger] self.as_dict@[a]).customers.contains(a) by {
                    self.as_dict.lemma_view_in_entries(a);
                    let j = choose|j: int|
                        0 <= j < self.as_dict.pairs().len() && (
                        #[trigger] self.as_dict.pairs()[j]).0 == a;
                    self.as_dict.lemma_entry_in_view(j);
                    assert(self.as_dict@[a].asn == a);
                }
                assert(!spec_has_cp_cycle(self.as_dict@));
            }
            Ok(())
        } else {
            proof {
                let keys = Seq::new(
                    self.as_dict.pairs().len(),
                    |j: int| self.as_dict.pairs()[j].0,
                );
                assert forall|i2: int, j2: int| 0 <= i2 < j2 < keys.len() implies keys[i2]
                    != keys[j2] by {
                    assert(self.as_dict.pairs()[i2].0 != self.as_dict.pairs()[j2].0);
                }
                assert(keys.no_duplicates());
                assert forall|x: ASN| self.as_dict@.contains_key(x) implies keys.contains(x) by {
                    self.as_dict.lemma_view_in_entries(x);
                    let j = choose|j: int|
                        0 <= j < self.as_dict.pairs().len() && (
                        #[trigger] self.as_dict.pairs()[j]).0 == x;
                    assert(keys[j] == x);
                }
                assert forall|x: ASN| ranked@.contains(x) implies keys.contains(x) by {
                    assert(rank@.contains_key(x));
                    assert(self.as_dict@.contains_key(x));
                }
                // Some present AS is unranked: otherwise the ranked list
                // would exhaust the key list.
                if forall|x: ASN|
                    self.as_dict@.contains_key(x) ==> #[trigger] rank@.contains_key(x) {
                    assert forall|x: ASN| keys.contains(x) implies ranked@.contains(x) by {
                        let j = choose|j: int| 0 <= j < keys.len() && keys[j] == x;
                        self.as_dict.lemma_entry_in_view(j);
                        assert(self.as_dict@.contains_key(x));
                        assert(rank@.contains_key(x));
                    }
                    crate::vecs::lemma_unique_subset_len(ranked@, keys);
                    crate::vecs::lemma_unique_subset_len(keys, ranked@);
                    assert(false);
                }
                let a = choose|a: ASN|
                    self.as_dict@.contains_key(a) && !(#[trigger] rank@.contains_key(a));
                lemma_unranked_residue_has_cycle(self.as_dict@, rank@, keys, a);
            }
            Err(CycleError)
        }
    }

    /// Assign propagation ranks: rank 0 for ASes without present providers,
    /// and each AS one more than its highest-ranked provider. ASes on or
    /// below a provider cycle stay unranked. All other node fields are
    /// untouched, and the rank layers are recorded in `propagation_ranks`.
    pub fn assign_as_propagation_rank(&mut self)
        requires
            old(self).wf(),
        ensures
            final(self).wf(),
            final(self).asn_groups == old(self).asn_groups,
            forall|a: ASN|
                final(self).as_dict@.contains_key(a) <==> old(self).as_dict@.contains_key(a),
            forall|a: ASN|
                #[trigger] final(self).as_dict@.contains_key(a) ==> final(self).as_dict@[a] =~= (
                ASView {
                    propagation_rank: final(self).as_dict@[a].propagation_rank,
                    ..old(self).as_dict@[a]
                }),
            forall|a: ASN, p: ASN|
                final(self).as_dict@.contains_key(a) && final(self).as_dict@.contains_key(p) && (
                #[trigger] final(self).as_dict@[a].providers.contains(p)) && final(self).as_dict@[a].propagation_rank is Some ==> final(self).as_dict@[p].propagation_rank is Some && final(self).as_dict@[p].propagation_rank.unwrap() < final(self).as_dict@[a].propagation_rank.unwrap(),
            forall|k: int, t: int|
                0 <= k < final(self).propagation_ranks@.len() && 0 <= t < final(self).propagation_ranks@[k]@.len() ==> final(self).as_dict@.contains_key(
                    #[trigger] final(self).propagation_ranks@[k]@[t],
                ) && final(self).as_dict@[final(self).propagation_ranks@[k]@[t]].propagation_rank
                    == Some(k as usize),
            forall|a: ASN|
                old(self).as_dict@.contains_key(a) && (#[trigger] final(self).as_dict@[a].propagation_rank)
                    is None ==> exists|path: Seq<ASN>|
                    spec_is_provider_cycle(old(self).as_dict@, path),
            forall|a: ASN|
                #[trigger] final(self).as_dict@.contains_key(a) ==> ((final(self).as_dict@[a].propagation_rank
                    == Some(0usize)) <==> spec_no_present_providers(old(self).as_dict@, a)),
            forall|a: ASN|
                #[trigger] final(self).as_dict@.contains_key(a) && final(self).as_dict@[a].propagation_rank
                    is Some ==> {
                    let k = final(self).as_dict@[a].propagation_rank.unwrap();
                    &&& k < final(self).propagation_ranks@.len()
                    &&& final(self).propagation_ranks@[k as int]@.contains(a)
                },
    {
        let (layers, ranked, rank) = self.peel_layers();
        let ghost g0 = self.as_dict@;
        let ghost rk = rank@;
        // First clear every rank, so that stale ranks from an earlier
        // assignment cannot survive.
        let n = self.as_dict.len();
        let asn_list = self.asns();
        proof {
            assert forall|j: int| 0 <= j < n implies g0.contains_key(#[trigger] asn_list@[j]) by {
                self.as_dict.lemma_entry_in_view(j);
            }
        }
        let mut i: usize = 0;
        while i < n
            invariant
                self.wf(),
                n == asn_list@.len(),
                i <= n,
                self.asn_groups == old(self).asn_groups,
                forall|j: int| 0 <= j < n ==> g0.contains_key(#[trigger] asn_list@[j]),
                forall|a: ASN| self.as_dict@.contains_key(a) <==> g0.contains_key(a),
                forall|a: ASN|
                    #[trigger] self.as_dict@.contains_key(a) ==> self.as_dict@[a] =~= (ASView {
                        propagation_rank: self.as_dict@[a].propagation_rank,
                        ..g0[a]
                    }),
                forall|j: int|
                    0 <= j < i ==> self.as_dict@[#[trigger] asn_list@[j]].propagation_rank is None,
                forall|a: ASN|
                    #[trigger] self.as_dict@.contains_key(a) ==> (self.as_dict@[a].propagation_rank
                        is None || self.as_dict@[a].propagation_rank == g0[a].propagation_rank),
            decreases n - i,
        {
            let asn = asn_list[i];
            match self.as_dict.get_mut(&asn) {
                Some(node) => {
                    node.propagation_rank = None;
                },
                None => {},
            }
            proof {
                assert forall|j: int| 0 <= j < i + 1 implies self.as_dict@[
                #[trigger] asn_list@[j]].propagation_rank is None by {
                    if asn_list@[j] != asn {
                    }
                }
            }
            i = i + 1;
        }
        proof {
            assert forall|a: ASN| #[trigger] self.as_dict@.contains_key(a) implies self.as_dict@[
            a].propagation_rank is None by {
                let j = choose|j: int| 0 <= j < n && asn_list@[j] == a;
                if exists|j: int| 0 <= j < n && #[trigger] asn_list@[j] == a {
                } else {
                    assert(g0.contains_key(a));
                    old(self).as_dict.lemma_view_in_entries(a);
                    let jj = choose|jj: int|
                        0 <= jj < old(self).as_dict.pairs().len() && (#[trigger] old(self).as_dict.pairs()[jj]).0 == a;
                    assert(asn_list@[jj] == a);
                }
            }
        }
        // Then stamp each layer's index onto its members.
        let ghost g1 = self.as_dict@;
        let mut k: usize = 0;
        while k < layers.len()
            invariant
                self.wf(),
                self.asn_groups == old(self).asn_groups,
                k <= layers@.len(),
                forall|a: ASN| self.as_dict@.contains_key(a) <==> g1.contains_key(a),
                forall|a: ASN| g1.contains_key(a) <==> g0.contains_key(a),
                forall|a: ASN| #[trigger] g1.contains_key(a) ==> g1[a] =~= (ASView {
                    propagation_rank: None,
                    ..g0[a]
                }),
                forall|kk: int, t: int|
                    0 <= kk < layers@.len() && 0 <= t < layers@[kk]@.len() ==> rk.contains_key(
                        #[trigger] layers@[kk]@[t],
                    ) && rk[layers@[kk]@[t]] == kk,
                forall|a: ASN| #[trigger] rk.contains_key(a) ==> g0.contains_key(a) && rk[a]
                    < layers@.len() && layers@[rk[a] as int]@.contains(a),
                spec_rank_respects(g0, rk),
                forall|a: ASN|
                    #[trigger] self.as_dict@.contains_key(a) ==> self.as_dict@[a] =~= (ASView {
                        propagation_rank: self.as_dict@[a].propagation_rank,
                        ..g0[a]
                    }),
                forall|a: ASN|
                    #[trigger] self.as_dict@.contains_key(a) ==> (match self.as_dict@[
                    a].propagation_rank {
                        Some(r) => rk.contains_key(a) && rk[a] == r && rk[a] < k,
                        None => !rk.contains_key(a) || rk[a] >= k,
                    }),
            decreases layers@.len() - k,
        {
            let layer = &layers[k];
            let mut t: usize = 0;
            while t < layer.len()
                invariant
                    self.wf(),
                    self.asn_groups == old(self).asn_groups,
                    k < layers@.len(),
                    t <= layer@.len(),
                    layer == layers@[k as int],
                    forall|a: ASN| self.as_dict@.contains_key(a) <==> g0.contains_key(a),
                    forall|kk: int, tt: int|
                        0 <= kk < layers@.len() && 0 <= tt < layers@[kk]@.len()
                            ==> rk.contains_key(#[trigger] layers@[kk]@[tt])
                            && rk[layers@[kk]@[tt]] == kk,
                    forall|a: ASN| #[trigger] rk.contains_key(a) ==> g0.contains_key(a) && rk[a]
                        < layers@.len() && layers@[rk[a] as int]@.contains(a),
                    forall|a: ASN|
                        #[trigger] self.as_dict@.contains_key(a) ==> self.as_dict@[a] =~= (ASView {
                            propagation_rank: self.as_dict@[a].propagation_rank,
                            ..g0[a]
                        }),
                    forall|a: ASN|
                        #[trigger] self.as_dict@.contains_key(a) ==> (match self.as_dict@[
                        a].propagation_rank {
                            Some(r) => rk.contains_key(a) && rk[a] == r && (rk[a] < k || (rk[a]
                                == k && layer@.take(t as int).contains(a))),
                            None => !rk.contains_key(a) || rk[a] > k || (rk[a] == k
                                && !layer@.take(t as int).contains(a)),
                        }),
                decreases layer@.len() - t,
            {
                let asn = layer[t];
                proof {
                    assert(layers@[k as int]@[t as int] == asn);
                    assert(rk.contains_key(asn) && rk[asn] == k);
                    assert(layer@.take(t as int + 1) =~= layer@.take(t as int).push(asn));
                    crate::vecs::lemma_push_contains(layer@.take(t as int), asn);
                }
                match self.as_dict.get_mut(&asn) {
                    Some(node) => {
                        node.propagation_rank = Some(k);
                    },
                    None => {},
                }
                t = t + 1;
            }
            proof {
                assert(layer@.take(layer@.len() as int) =~= layer@);
            }
            k = k + 1;
        }
        self.propagation_ranks = layers;
        proof {
            assert forall|a: ASN|
                g0.contains_key(a) && (#[trigger] self.as_dict@[a].propagation_rank)
                    is None implies exists|path: Seq<ASN>|
                spec_is_provider_cycle(g0, path) by {
                assert(self.as_dict@.contains_key(a));
                assert(!rk.contains_key(a));
                if ranked@.len() == old(self).as_dict.pairs().len() {
                    assert(false);
                }
                let keys = Seq::new(self.as_dict.pairs().len(), |j: int| self.as_dict.pairs()[j].0);
                assert forall|i2: int, j2: int| 0 <= i2 < j2 < keys.len() implies keys[i2]
                    != keys[j2] by {
                    assert(self.as_dict.pairs()[i2].0 != self.as_dict.pairs()[j2].0);
                }
                assert forall|x: ASN| g0.contains_key(x) implies keys.contains(x) by {
                    self.as_dict.lemma_view_in_entries(x);
                    let j = choose|j: int|
                        0 <= j < self.as_dict.pairs().len() && (
                        #[trigger] self.as_dict.pairs()[j]).0 == x;
                    assert(keys[j] == x);
                }
                lemma_unranked_residue_has_cycle(g0, rk, keys, a);
            }
            assert forall|a: ASN|
                #[trigger] self.as_dict@.contains_key(a) implies ((self.as_dict@[a].propagation_rank
                == Some(0usize)) <==> spec_no_present_providers(g0, a)) by {
                if spec_no_present_providers(g0, a) {
                    assert(rk.contains_key(a) && rk[a] == 0);
                    assert(self.as_dict@[a].propagation_rank == Some(0usize));
                }
                if self.as_dict@[a].propagation_rank == Some(0usize) {
                    assert(rk.contains_key(a) && rk[a] == 0);
                    assert forall|p: ASN|
                        (#[trigger] g0[a].providers.contains(p)) implies !g0.contains_key(p) by {
                        if g0.contains_key(p) {
                            assert(rk.contains_key(p) && rk[p] < rk[a]);
                        }
                    }
                }
            }
            assert forall|a: ASN, p: ASN|
                self.as_dict@.contains_key(a) && self.as_dict@.contains_key(p) && (
                #[trigger] self.as_dict@[a].providers.contains(p)) && self.as_dict@[
            a].propagation_rank is Some implies self.as_dict@[p].propagation_rank is Some
                && self.as_dict@[p].propagation_rank.unwrap() < self.as_dict@[
            a].propagation_rank.unwrap() by {
                assert(g0[a].providers.contains(p));
                assert(rk.contains_key(a));
                assert(rk.contains_key(p) && rk[p] < rk[a]);
            }
        }
    }
}

/// The customer-provider subgraph is cyclic: some AS lists itself as a
/// customer, or a closed walk along provider edges exists.
pub open spec fn spec_has_cp_cycle(g: Map<ASN, ASView>) -> bool {
    ||| exists|a: ASN| #[trigger] g.contains_key(a) && g[a].customers.contains(a)
    ||| exists|path: Seq<ASN>| spec_is_provider_cycle(g, path)
}

/// From an unranked AS, a walk of any requested length descends through
/// unranked providers, when every unranked AS has one.
proof fn lemma_build_descending_path(
    g: Map<ASN, ASView>,
    rank: Map<ASN, nat>,
    a: ASN,
    k: nat,
) -> (path: Seq<ASN>)
    requires
        g.contains_key(a),
        !rank.contains_key(a),
        forall|x: ASN|
            g.contains_key(x) && !(#[trigger] rank.contains_key(x)) ==> exists|q: ASN|
                g.contains_key(q) && (#[trigger] g[x]).providers.contains(q) && !rank.contains_key(
                    q,
                ),
    ensures
        path.len() == k + 1,
        path[0] == a,
        forall|i: int|
            0 <= i < path.len() ==> g.contains_key(#[trigger] path[i]) && !rank.contains_key(
                path[i],
            ),
        forall|i: int| 0 <= i < path.len() - 1 ==> g[#[trigger] path[i]].providers.contains(
            path[i + 1],
        ),
    decreases k,
{
    if k == 0 {
        let path = seq![a];
        assert(path[0] == a);
        path
    } else {
        let prefix = lemma_build_descending_path(g, rank, a, (k - 1) as nat);
        let last = prefix.last();
        assert(g.contains_key(last) && !rank.contains_key(last));
        let q = choose|q: ASN|
            g.contains_key(q) && (#[trigger] g[last]).providers.contains(q) && !rank.contains_key(
                q,
            );
        let path = prefix.push(q);
        assert forall|i: int| 0 <= i < path.len() - 1 implies g[
        #[trigger] path[i]].providers.contains(path[i + 1]) by {
            if i < prefix.len() - 1 {
                assert(path[i] == prefix[i] && path[i + 1] == prefix[i + 1]);
            } else {
                assert(path[i] == last && path[i + 1] == q);
            }
        }
        path
    }
}

/// When some present AS is unranked and every unranked AS keeps an unranked
/// present provider, the provider digraph has a closed walk.
proof fn lemma_unranked_residue_has_cycle(
    g: Map<ASN, ASView>,
    rank: Map<ASN, nat>,
    keys: Seq<ASN>,
    a: ASN,
)
    requires
        forall|x: ASN| g.contains_key(x) ==> keys.contains(x),
        g.contains_key(a),
        !rank.contains_key(a),
        forall|x: ASN|
            g.contains_key(x) && !(#[trigger] rank.contains_key(x)) ==> exists|q: ASN|
                g.contains_key(q) && (#[trigger] g[x]).providers.contains(q) && !rank.contains_key(
                    q,
                ),
    ensures
        exists|path: Seq<ASN>| spec_is_provider_cycle(g, path),
{
    let n = keys.len();
    let path = lemma_build_descending_path(g, rank, a, n + 1);
    if path.no_duplicates() {
        assert forall|x: ASN| path.contains(x) implies keys.contains(x) by {
            let i = choose|i: int| 0 <= i < path.len() && path[i] == x;
            assert(g.contains_key(path[i]));
        }
        crate::vecs::lemma_unique_subset_len(path, keys);
        assert(false);
    }
    let (i, j): (int, int) = choose|i: int, j: int|
        0 <= i < path.len() && 0 <= j < path.len() && i != j && path[i] == path[j];
    let lo = if i < j { i } else { j };
    let hi = if i < j { j } else { i };
    let cyc = path.subrange(lo, hi + 1);
    assert(cyc.len() >= 2);
    assert(cyc[0] == path[lo] && cyc.last() == path[hi]);
    assert forall|t: int| 0 <= t < cyc.len() - 1 implies g.contains_key(#[trigger] cyc[t])
        && g[cyc[t]].providers.contains(cyc[t + 1]) by {
        assert(cyc[t] == path[lo + t] && cyc[t + 1] == path[lo + t + 1]);
    }
    assert(spec_is_provider_cycle(g, cyc));
}

/// A walk along customer edges: every step moves from a present AS to one
/// of its customers.
pub open spec fn spec_customer_path(g: Map<ASN, ASView>, path: Seq<ASN>) -> bool {
    &&& path.len() >= 1
    &&& forall|i: int|
        0 <= i < path.len() - 1 ==> g.contains_key(#[trigger] path[i]) && g[path[i]].customers.contains(
            path[i + 1],
        )
}

/// An ASN is in the provider cone of a root when some customer walk leads
/// from the root to it.
pub open spec fn spec_in_cone(g: Map<ASN, ASView>, root: ASN, x: ASN) -> bool {
    exists|path: Seq<ASN>|
        spec_customer_path(g, path) && path[0] == root && path.last() == x
}

/// One customer step extends cone membership.
proof fn lemma_cone_step(g: Map<ASN, ASView>, root: ASN, x: ASN, c: ASN)
    requires
        spec_in_cone(g, root, x),
        g.contains_key(x),
        g[x].customers.contains(c),
    ensures
        spec_in_cone(g, root, c),
{
    let path = choose|path: Seq<ASN>|
        spec_customer_path(g, path) && path[0] == root && path.last() == x;
    let p2 = path.push(c);
    assert forall|i: int| 0 <= i < p2.len() - 1 implies g.contains_key(#[trigger] p2[i])
        && g[p2[i]].customers.contains(p2[i + 1]) by {
        if i < path.len() - 1 {
            assert(p2[i] == path[i] && p2[i + 1] == path[i + 1]);
        } else {
            assert(p2[i] == x && p2[i + 1] == c);
        }
    }
    assert(spec_customer_path(g, p2) && p2[0] == root && p2.last() == c);
}

/// A set of ASNs that holds a walk's start and is closed under present
/// customer edges holds the walk's end.
proof fn lemma_cone_closed_paths(g: Map<ASN, ASView>, r: Seq<ASN>, path: Seq<ASN>)
    requires
        spec_customer_path(g, path),
        r.contains(path[0]),
        forall|x: ASN, c: ASN|
            r.contains(x) && g.contains_key(x) && #[trigger] g[x].customers.contains(c)
                ==> r.contains(c),
    ensures
        r.contains(path.last()),
    decreases path.len(),
{
    if path.len() > 1 {
        let pre = path.drop_last();
        assert forall|i: int| 0 <= i < pre.len() - 1 implies g.contains_key(#[trigger] pre[i])
            && g[pre[i]].customers.contains(pre[i + 1]) by {
            assert(pre[i] == path[i] && pre[i + 1] == path[i + 1]);
        }
        lemma_cone_closed_paths(g, r, pre);
        assert(g.contains_key(path[path.len() - 2]));
        assert(g[path[path.len() - 2]].customers.contains(path[path.len() - 1]));
        assert(pre.last() == path[path.len() - 2]);
    }
}

impl ASGraph {
    /// The ASNs reachable from a root by descending customer edges, the root
    /// included; customers absent from the graph count as leaves of the
    /// cone.
    pub fn calculate_provider_cone(&self, asn: ASN) -> (r: Vec<ASN>)
        requires
            self.wf(),
        ensures
            r@.no_duplicates(),
            r@.contains(asn),
            forall|x: ASN| #[trigger] r@.contains(x) ==> spec_in_cone(self.as_dict@, asn, x),
            forall|x: ASN| spec_in_cone(self.as_dict@, asn, x) ==> #[trigger] r@.contains(x),
    {
        let keys_v = self.asns();
        let ghost keys = keys_v@;
        let ghost g = self.as_dict@;
        proof {
            assert forall|i: int, j: int| 0 <= i < j < keys.len() implies keys[i] != keys[j] by {
                assert(self.as_dict.pairs()[i].0 != self.as_dict.pairs()[j].0);
            }
            assert forall|i: int| 0 <= i < keys.len() implies self.as_dict@.contains_key(
                keys[i],
            ) by {
                self.as_dict.lemma_entry_in_view(i);
            }
        }
        let mut visited: Vec<ASN> = Vec::new();
        let mut extra: Vec<ASN> = Vec::new();
        let mut work: Vec<ASN> = Vec::new();
        let ghost root_path = seq![asn];
        proof {
            assert(root_path.len() == 1);
            assert(spec_customer_path(g, root_path));
            assert(root_path[0] == asn && root_path.last() == asn);
            assert(spec_in_cone(g, asn, asn));
        }
        if self.as_dict.contains_key(&asn) {
            work.push(asn);
            proof {
                assert(work@[0] == asn);
                assert(work@.contains(asn));
            }
        } else {
            push_unique(&mut extra, asn);
            proof {
                assert(extra@.contains(asn));
            }
        }
        while work.len() > 0
            invariant
                self.wf(),
                g == self.as_dict@,
                keys == keys_v@,
                keys.no_duplicates(),
                keys.len() == self.as_dict.pairs().len(),
                forall|i: int| 0 <= i < keys.len() ==> keys[i] == (
                #[trigger] self.as_dict.pairs()[i]).0,
                forall|i: int| 0 <= i < keys.len() ==> g.contains_key(#[trigger] keys[i]),
                visited@.no_duplicates(),
                extra@.no_duplicates(),
                forall|x: ASN| #[trigger] visited@.contains(x) ==> g.contains_key(x)
                    && spec_in_cone(g, asn, x),
                forall|x: ASN| #[trigger] work@.contains(x) ==> g.contains_key(x) && spec_in_cone(
                    g,
                    asn,
                    x,
                ),
                forall|x: ASN| #[trigger] extra@.contains(x) ==> !g.contains_key(x)
                    && spec_in_cone(g, asn, x),
                visited@.contains(asn) || work@.contains(asn) || extra@.contains(asn),
                forall|x: ASN, c: ASN|
                    visited@.contains(x) && #[trigger] g[x].customers.contains(c)
                        && g.contains_key(x) ==> (visited@.contains(c) || work@.contains(c)
                        || extra@.contains(c)),
            decreases keys.len() - visited@.len(), work@.len(),
        {
            proof {
                assert forall|x: ASN| visited@.contains(x) implies keys.contains(x) by {
                    self.as_dict.lemma_view_in_entries(x);
                    let i = choose|i: int|
                        0 <= i < self.as_dict.pairs().len() && (
                        #[trigger] self.as_dict.pairs()[i]).0 == x;
                    assert(keys[i] == x);
                }
                crate::vecs::lemma_unique_subset_len(visited@, keys);
            }
            let ghost pre_work = work@;
            let x = work[work.len() - 1];
            work.pop();
            proof {
                assert(pre_work.contains(x));
                assert(work@ =~= pre_work.drop_last());
                assert forall|y: ASN| #[trigger] work@.contains(y) implies pre_work.contains(y) by {
                    let i = choose|i: int| 0 <= i < work@.len() && work@[i] == y;
                    assert(pre_work[i] == y);
                }
            }
            if contains_asn(&visited, x) {
                proof {
                    assert(visited@.contains(asn) || work@.contains(asn) || extra@.contains(asn))
                        by {
                        if pre_work.contains(asn) && !work@.contains(asn) && !visited@.contains(asn)
                            && !extra@.contains(asn) {
                            let i = choose|i: int| 0 <= i < pre_work.len() && pre_work[i] == asn;
                            if i < pre_work.len() - 1 {
                                assert(work@[i] == asn);
                            } else {
                                assert(x == asn);
                            }
                        }
                    }
                    assert forall|y: ASN, c: ASN|
                        visited@.contains(y) && #[trigger] g[y].customers.contains(c)
                            && g.contains_key(y) implies (visited@.contains(c) || work@.contains(c)
                        || extra@.contains(c)) by {
                        if pre_work.contains(c) && !work@.contains(c) {
                            let i = choose|i: int| 0 <= i < pre_work.len() && pre_work[i] == c;
                            if i < pre_work.len() - 1 {
                                assert(work@[i] == c);
                            } else {
                                assert(c == x);
                                assert(visited@.contains(c));
                            }
                        }
                    }
                }
                continue ;
            }
            let ghost pre_visited = visited@;
            visited.push(x);
            proof {
                crate::vecs::lemma_push_contains(pre_visited, x);
                assert(visited@.contains(asn) || work@.contains(asn) || extra@.contains(asn)) by {
                    if pre_work.contains(asn) && !work@.contains(asn) && !visited@.contains(asn)
                        && !extra@.contains(asn) {
                        let i = choose|i: int| 0 <= i < pre_work.len() && pre_work[i] == asn;
                        if i < pre_work.len() - 1 {
                            assert(work@[i] == asn);
                        } else {
                            assert(x == asn);
                        }
                    }
                }
                assert forall|y: ASN, c: ASN|
                    visited@.contains(y) && #[trigger] g[y].customers.contains(c)
                        && g.contains_key(y) && y != x implies (visited@.contains(c)
                    || work@.contains(c) || extra@.contains(c)) by {
                    assert(pre_visited.contains(y));
                    if pre_work.contains(c) && !work@.contains(c) && !visited@.contains(c)
                        && !extra@.contains(c) {
                        let i = choose|i: int| 0 <= i < pre_work.len() && pre_work[i] == c;
                        if i < pre_work.len() - 1 {
                            assert(work@[i] == c);
                        } else {
                            assert(c == x);
                        }
                    }
                }
            }
            match self.as_dict.get(&x) {
                Some(node) => {
                    let mut t: usize = 0;
                    while t < node.customers.len()
                        invariant
                            self.wf(),
                            g == self.as_dict@,
                            g.contains_key(x),
                            node@ == g[x],
                            t <= node.customers.len(),
                            spec_in_cone(g, asn, x),
                            visited@.no_duplicates(),
                            extra@.no_duplicates(),
                            visited@.contains(x),
                            forall|y: ASN| #[trigger] visited@.contains(y) ==> g.contains_key(y)
                                && spec_in_cone(g, asn, y),
                            forall|y: ASN| #[trigger] work@.contains(y) ==> g.contains_key(y)
                                && spec_in_cone(g, asn, y),
                            forall|y: ASN| #[trigger] extra@.contains(y) ==> !g.contains_key(y)
                                && spec_in_cone(g, asn, y),
                            visited@.contains(asn) || work@.contains(asn) || extra@.contains(asn),
                            forall|y: ASN, c: ASN|
                                visited@.contains(y) && #[trigger] g[y].customers.contains(c)
                                    && g.contains_key(y) && y != x ==> (visited@.contains(c)
                                    || work@.contains(c) || extra@.contains(c)),
                            forall|ti: int|
                                0 <= ti < t ==> visited@.contains(#[trigger] node.customers@[ti])
                                    || work@.contains(node.customers@[ti]) || extra@.contains(
                                    node.customers@[ti],
                                ),
                            visited@ == pre_visited.push(x),
                        decreases node.customers.len() - t,
                    {
                        let c = node.customers[t];
                        proof {
                            assert(g[x].customers.contains(c));
                            lemma_cone_step(g, asn, x, c);
                        }
                        if self.as_dict.contains_key(&c) {
                            if !contains_asn(&visited, c) {
                                let ghost pw = work@;
                                work.push(c);
                                proof {
                                    crate::vecs::lemma_push_contains(pw, c);
                                }
                            }
                        } else {
                            push_unique(&mut extra, c);
                        }
                        t = t + 1;
                    }
                },
                None => {
                    proof {
                        assert(false);
                    }
                },
            }
            proof {
                assert forall|y: ASN| visited@.contains(y) implies keys.contains(y) by {
                    self.as_dict.lemma_view_in_entries(y);
                    let i = choose|i: int|
                        0 <= i < self.as_dict.pairs().len() && (
                        #[trigger] self.as_dict.pairs()[i]).0 == y;
                    assert(keys[i] == y);
                }
                crate::vecs::lemma_unique_subset_len(visited@, keys);
            }
        }
        // Merge the absent-customer leaves into the visited set.
        let ghost pre_merge = visited@;
        let mut i: usize = 0;
        while i < extra.len()
            invariant
                i <= extra.len(),
                visited@.no_duplicates(),
                forall|x: ASN|
                    #[trigger] visited@.contains(x) <==> (pre_merge.contains(x) || extra@.take(
                        i as int,
                    ).contains(x)),
            decreases extra.len() - i,
        {
            proof {
                assert(extra@.take(i as int + 1) =~= extra@.take(i as int).push(extra@[i as int]));
                crate::vecs::lemma_push_contains(extra@.take(i as int), extra@[i as int]);
            }
            push_unique(&mut visited, extra[i]);
            i = i + 1;
        }
        proof {
            assert(extra@.take(extra@.len() as int) =~= extra@);
            assert forall|x: ASN| spec_in_cone(g, asn, x) implies #[trigger] visited@.contains(
                x,
            ) by {
                let path = choose|path: Seq<ASN>|
                    spec_customer_path(g, path) && path[0] == asn && path.last() == x;
                assert(visited@.contains(asn));
                assert forall|y: ASN, c: ASN|
                    visited@.contains(y) && g.contains_key(y) && #[trigger] g[y].customers.contains(
                        c,
                    ) implies visited@.contains(c) by {
                    assert(pre_merge.contains(y));
                }
                lemma_cone_closed_paths(g, visited@, path);
            }
        }
        visited
    }
}

impl ASGraph {
    /// Compute and store the provider cone of every tier-1 AS; other ASes
    /// keep their stored cone. All other node fields are untouched.
    pub fn add_provider_cone_asns(&mut self)
        requires
            old(self).wf(),
        ensures
            final(self).wf(),
            final(self).propagation_ranks == old(self).propagation_ranks,
            final(self).asn_groups == old(self).asn_groups,
            forall|a: ASN|
                final(self).as_dict@.contains_key(a) <==> old(self).as_dict@.contains_key(a),
            forall|a: ASN|
                #[trigger] final(self).as_dict@.contains_key(a) ==> final(self).as_dict@[a] =~= (
                ASView {
                    provider_cone_asns: final(self).as_dict@[a].provider_cone_asns,
                    ..old(self).as_dict@[a]
                }),
            forall|a: ASN|
                #[trigger] final(self).as_dict@.contains_key(a) && !old(
                    self,
                ).as_dict@[a].tier_1 ==> final(self).as_dict@[a].provider_cone_asns == old(
                    self,
                ).as_dict@[a].provider_cone_asns,
            forall|a: ASN|
                #[trigger] final(self).as_dict@.contains_key(a) && old(self).as_dict@[a].tier_1
                    ==> (forall|x: ASN|
                    final(self).as_dict@[a].provider_cone_asns.contains(x) <==> spec_in_cone(
                        old(self).as_dict@,
                        a,
                        x,
                    )),
    {
        let ghost g0 = self.as_dict@;
        let n = self.as_dict.len();
        let mut cones: Vec<(ASN, Vec<ASN>)> = Vec::new();
        let mut i: usize = 0;
        while i < n
            invariant
                self.wf(),
                self == old(self),
                g0 == self.as_dict@,
                n == self.as_dict.pairs().len(),
                i <= n,
                forall|t: int|
                    0 <= t < cones@.len() ==> g0.contains_key((#[trigger] cones@[t]).0)
                        && g0[cones@[t].0].tier_1 && (forall|x: ASN|
                        cones@[t].1@.contains(x) <==> spec_in_cone(g0, cones@[t].0, x)),
                forall|t: int|
                    0 <= t < cones@.len() ==> exists|j: int|
                        0 <= j < i && (#[trigger] self.as_dict.pairs()[j]).0 == (
                        #[trigger] cones@[t]).0,
                forall|t1: int, t2: int|
                    0 <= t1 < t2 < cones@.len() ==> (#[trigger] cones@[t1]).0 != (
                    #[trigger] cones@[t2]).0,
                forall|j: int|
                    0 <= j < i && g0[(#[trigger] self.as_dict.pairs()[j]).0].tier_1 ==> exists|
                        t: int,
                    |
                        0 <= t < cones@.len() && (#[trigger] cones@[t]).0
                            == self.as_dict.pairs()[j].0,
            decreases n - i,
        {
            let asn = self.as_dict.key_at(i);
            let node = self.as_dict.value_at(i);
            proof {
                self.as_dict.lemma_entry_in_view(i as int);
            }
            if node.tier_1 {
                let cone = self.calculate_provider_cone(asn);
                let ghost pre_cones = cones@;
                cones.push((asn, cone));
                proof {
                    assert(cones@[pre_cones.len() as int].0 == asn);
                    assert forall|t: int| 0 <= t < cones@.len() implies exists|j: int|
                        0 <= j < i + 1 && (#[trigger] self.as_dict.pairs()[j]).0 == (
                        #[trigger] cones@[t]).0 by {
                        if t < pre_cones.len() {
                            let j = choose|j: int|
                                0 <= j < i && (#[trigger] self.as_dict.pairs()[j]).0 == (
                                #[trigger] pre_cones[t]).0;
                            assert(self.as_dict.pairs()[j].0 == cones@[t].0);
                        } else {
                            assert(self.as_dict.pairs()[i as int].0 == cones@[t].0);
                        }
                    }
                    assert forall|t1: int, t2: int| 0 <= t1 < t2 < cones@.len() implies (
                    #[trigger] cones@[t1]).0 != (#[trigger] cones@[t2]).0 by {
                        if t2 == pre_cones.len() {
                            let j = choose|j: int|
                                0 <= j < i && (#[trigger] self.as_dict.pairs()[j]).0 == (
                                #[trigger] pre_cones[t1]).0;
                            assert(self.as_dict.pairs()[j].0 != self.as_dict.pairs()[i as int].0);
                        } else {
                            assert(pre_cones[t1] == cones@[t1] && pre_cones[t2] == cones@[t2]);
                        }
                    }
                    assert forall|j: int|
                        0 <= j < i + 1 && g0[(#[trigger] self.as_dict.pairs()[j]).0].tier_1 implies exists|
                        t: int,
                    |
                        0 <= t < cones@.len() && (#[trigger] cones@[t]).0
                            == self.as_dict.pairs()[j].0 by {
                        if j < i {
                            let t = choose|t: int|
                                0 <= t < pre_cones.len() && (#[trigger] pre_cones[t]).0
                                    == self.as_dict.pairs()[j].0;
                            assert(cones@[t].0 == self.as_dict.pairs()[j].0);
                        } else {
                            assert(cones@[pre_cones.len() as int].0 == self.as_dict.pairs()[j].0);
                        }
                    }
                }
            } else {
                proof {
                    assert forall|j: int|
                        0 <= j < i + 1 && g0[(#[trigger] self.as_dict.pairs()[j]).0].tier_1 implies exists|
                        t: int,
                    |
                        0 <= t < cones@.len() && (#[trigger] cones@[t]).0
                            == self.as_dict.pairs()[j].0 by {
                        if j == i {
                            assert(g0[self.as_dict.pairs()[j].0] == node@);
                            assert(false);
                        }
                    }
                }
            }
            i = i + 1;
        }
        proof {
            assert forall|a: ASN| g0.contains_key(a) && g0[a].tier_1 implies exists|t: int|
                0 <= t < cones@.len() && (#[trigger] cones@[t]).0 == a by {
                self.as_dict.lemma_view_in_entries(a);
                let j = choose|j: int|
                    0 <= j < self.as_dict.pairs().len() && (#[trigger] self.as_dict.pairs()[j]).0
                        == a;
            }
        }
        let mut t: usize = 0;
        while t < cones.len()
            invariant
                self.wf(),
                self.propagation_ranks == old(self).propagation_ranks,
                self.asn_groups == old(self).asn_groups,
                t <= cones@.len(),
                forall|tt: int|
                    0 <= tt < cones@.len() ==> g0.contains_key((#[trigger] cones@[tt]).0)
                        && g0[cones@[tt].0].tier_1 && (forall|x: ASN|
                        cones@[tt].1@.contains(x) <==> spec_in_cone(g0, cones@[tt].0, x)),
                forall|t1: int, t2: int|
                    0 <= t1 < t2 < cones@.len() ==> (#[trigger] cones@[t1]).0 != (
                    #[trigger] cones@[t2]).0,
                forall|a: ASN|
                    #[trigger] g0.contains_key(a) && g0[a].tier_1 ==> exists|tt: int|
                        0 <= tt < cones@.len() && (#[trigger] cones@[tt]).0 == a,
                forall|a: ASN| self.as_dict@.contains_key(a) <==> g0.contains_key(a),
                forall|a: ASN|
                    #[trigger] self.as_dict@.contains_key(a) ==> self.as_dict@[a] =~= (ASView {
                        provider_cone_asns: self.as_dict@[a].provider_cone_asns,
                        ..g0[a]
                    }),
                forall|a: ASN|
                    #[trigger] self.as_dict@.contains_key(a) ==> ((exists|tt: int|
                        0 <= tt < t && (#[trigger] cones@[tt]).0 == a) || self.as_dict@[
                    a].provider_cone_asns == g0[a].provider_cone_asns),
                forall|tt: int|
                    0 <= tt < t ==> self.as_dict@[(#[trigger] cones@[tt]).0].provider_cone_asns
                        == cones@[tt].1@,
            decreases cones@.len() - t,
        {
            let asn = cones[t].0;
            let cone_copy = clone_u32_vec(&cones[t].1);
            match self.as_dict.get_mut(&asn) {
                Some(node) => {
                    node.provider_cone_asns = cone_copy;
                },
                None => {},
            }
            proof {
                assert forall|tt: int| 0 <= tt < t + 1 implies self.as_dict@[(
                #[trigger] cones@[tt]).0].provider_cone_asns == cones@[tt].1@ by {
                    if tt < t {
                        assert(cones@[tt].0 != cones@[t as int].0);
                    }
                }
            }
            t = t + 1;
        }
        proof {
            assert forall|a: ASN|
                #[trigger] self.as_dict@.contains_key(a) && g0[a].tier_1 implies (forall|x: ASN|
                self.as_dict@[a].provider_cone_asns.contains(x) <==> spec_in_cone(g0, a, x)) by {
                assert(g0.contains_key(a));
                let tt = choose|tt: int| 0 <= tt < cones@.len() && (#[trigger] cones@[tt]).0 == a;
                assert(self.as_dict@[a].provider_cone_asns == cones@[tt].1@);
            }
            assert forall|a: ASN|
                #[trigger] self.as_dict@.contains_key(a) && !g0[a].tier_1 implies self.as_dict@[
            a].provider_cone_asns == g0[a].provider_cone_asns by {
                if exists|tt: int| 0 <= tt < cones@.len() && (#[trigger] cones@[tt]).0 == a {
                    let tt = choose|tt: int|
                        0 <= tt < cones@.len() && (#[trigger] cones@[tt]).0 == a;
                    assert(g0[a].tier_1);
                }
            }
        }
    }

    /// Compute the named ASN groups over the finished graph: tier-1, stubs,
    /// multihomed, stubs-or-multihomed, transit and IXP members, with the
    /// scenario-filled groups left empty.
    pub fn add_asn_groups(&mut self)
        requires
            old(self).wf(),
        ensures
            final(self).wf(),
            final(self).as_dict == old(self).as_dict,
            final(self).propagation_ranks == old(self).propagation_ranks,
            ({
                let m = final(self).asn_groups@;
                let g = final(self).as_dict@;
                &&& m.contains_key(ASNGroups::Tier1) && (forall|x: ASN|
                    m[ASNGroups::Tier1].contains(x) <==> g.contains_key(x) && (#[trigger] g[x]).tier_1)
                &&& m.contains_key(ASNGroups::Stubs) && (forall|x: ASN|
                    m[ASNGroups::Stubs].contains(x) <==> g.contains_key(x) && (
                    #[trigger] g[x]).spec_is_stub())
                &&& m.contains_key(ASNGroups::Multihomed) && (forall|x: ASN|
                    m[ASNGroups::Multihomed].contains(x) <==> g.contains_key(x) && (
                    #[trigger] g[x]).spec_is_multihomed())
                &&& m.contains_key(ASNGroups::StubsOrMh) && (forall|x: ASN|
                    m[ASNGroups::StubsOrMh].contains(x) <==> g.contains_key(x) && ((
                    #[trigger] g[x]).spec_is_stub() || g[x].spec_is_multihomed()))
                &&& m.contains_key(ASNGroups::Transit) && (forall|x: ASN|
                    m[ASNGroups::Transit].contains(x) <==> g.contains_key(x) && (
                    #[trigger] g[x]).spec_is_transit())
                &&& m.contains_key(ASNGroups::Ixp) && (forall|x: ASN|
                    m[ASNGroups::Ixp].contains(x) <==> g.contains_key(x) && (#[trigger] g[x]).ixp)
                &&& m.contains_key(ASNGroups::Etc) && m[ASNGroups::Etc].len() == 0
                &&& m.contains_key(ASNGroups::Input) && m[ASNGroups::Input].len() == 0
            }),
    {
        let ghost g = self.as_dict@;
        let n = self.as_dict.len();
        let mut tier_1: Vec<ASN> = Vec::new();
        let mut stubs: Vec<ASN> = Vec::new();
        let mut multihomed: Vec<ASN> = Vec::new();
        let mut stubs_or_mh: Vec<ASN> = Vec::new();
        let mut transit: Vec<ASN> = Vec::new();
        let mut ixp: Vec<ASN> = Vec::new();
        let mut i: usize = 0;
        while i < n
            invariant
                self.wf(),
                self == old(self),
                g == self.as_dict@,
                n == self.as_dict.pairs().len(),
                i <= n,
                forall|x: ASN|
                    #[trigger] tier_1@.contains(x) <==> ((exists|j: int|
                        0 <= j < i && (#[trigger] self.as_dict.pairs()[j]).0 == x)
                        && g.contains_key(x) && g[x].tier_1),
                forall|x: ASN|
                    #[trigger] stubs@.contains(x) <==> ((exists|j: int|
                        0 <= j < i && (#[trigger] self.as_dict.pairs()[j]).0 == x)
                        && g.contains_key(x) && g[x].spec_is_stub()),
                forall|x: ASN|
                    #[trigger] multihomed@.contains(x) <==> ((exists|j: int|
                        0 <= j < i && (#[trigger] self.as_dict.pairs()[j]).0 == x)
                        && g.contains_key(x) && g[x].spec_is_multihomed()),
                forall|x: ASN|
                    #[trigger] stubs_or_mh@.contains(x) <==> ((exists|j: int|
                        0 <= j < i && (#[trigger] self.as_dict.pairs()[j]).0 == x)
                        && g.contains_key(x) && (g[x].spec_is_stub() || g[x].spec_is_multihomed())),
                forall|x: ASN|
                    #[trigger] transit@.contains(x) <==> ((exists|j: int|
                        0 <= j < i && (#[trigger] self.as_dict.pairs()[j]).0 == x)
                        && g.contains_key(x) && g[x].spec_is_transit()),
                forall|x: ASN|
                    #[trigger] ixp@.contains(x) <==> ((exists|j: int|
                        0 <= j < i && (#[trigger] self.as_dict.pairs()[j]).0 == x)
                        && g.contains_key(x) && g[x].ixp),
            decreases n - i,
        {
            let asn = self.as_dict.key_at(i);
            let node = self.as_dict.value_at(i);
            proof {
                self.as_dict.lemma_entry_in_view(i as int);
                assert(g.contains_key(asn) && g[asn] == node@);
                assert(g[asn].asn == asn);
            }
            let ghost pre_tier_1 = tier_1@;
            let ghost pre_stubs = stubs@;
            let ghost pre_multihomed = multihomed@;
            let ghost pre_stubs_or_mh = stubs_or_mh@;
            let ghost pre_transit = transit@;
            let ghost pre_ixp = ixp@;
            if node.tier_1 {
                tier_1.push(asn);
            }
            if node.is_stub() {
                stubs.push(asn);
            }
            if node.is_multihomed() {
                multihomed.push(asn);
            }
            if node.is_stub() || node.is_multihomed() {
                stubs_or_mh.push(asn);
            }
            if node.is_transit() {
                transit.push(asn);
            }
            if node.ixp {
                ixp.push(asn);
            }
            proof {
                crate::vecs::lemma_push_contains(pre_tier_1, asn);
                crate::vecs::lemma_push_contains(pre_stubs, asn);
                crate::vecs::lemma_push_contains(pre_multihomed, asn);
                crate::vecs::lemma_push_contains(pre_stubs_or_mh, asn);
                crate::vecs::lemma_push_contains(pre_transit, asn);
                crate::vecs::lemma_push_contains(pre_ixp, asn);
                assert forall|x: ASN|
                    #[trigger] tier_1@.contains(x) <==> ((exists|j: int|
                        0 <= j < i + 1 && (#[trigger] self.as_dict.pairs()[j]).0 == x)
                        && g.contains_key(x) && g[x].tier_1) by {
                    if tier_1@.contains(x) {
                        if pre_tier_1.contains(x) {
                            let j = choose|j: int|
                                0 <= j < i && (#[trigger] self.as_dict.pairs()[j]).0 == x;
                            assert(0 <= j < i + 1 && self.as_dict.pairs()[j].0 == x);
                        } else {
                            assert(x == asn);
                            assert(self.as_dict.pairs()[i as int].0 == x);
                        }
                    }
                    if (exists|j: int|
                        0 <= j < i + 1 && (#[trigger] self.as_dict.pairs()[j]).0 == x)
                        && g.contains_key(x) && g[x].tier_1 {
                        let j = choose|j: int|
                            0 <= j < i + 1 && (#[trigger] self.as_dict.pairs()[j]).0 == x;
                        if j < i {
                            assert(pre_tier_1.contains(x));
                        } else {
                            assert(x == asn);
                        }
                    }
                }
                assert forall|x: ASN|
                    #[trigger] stubs@.contains(x) <==> ((exists|j: int|
                        0 <= j < i + 1 && (#[trigger] self.as_dict.pairs()[j]).0 == x)
                        && g.contains_key(x) && g[x].spec_is_stub()) by {
                    if stubs@.contains(x) {
                        if pre_stubs.contains(x) {
                            let j = choose|j: int|
                                0 <= j < i && (#[trigger] self.as_dict.pairs()[j]).0 == x;
                            assert(0 <= j < i + 1 && self.as_dict.pairs()[j].0 == x);
                        } else {
                            assert(x == asn);
                            assert(self.as_dict.pairs()[i as int].0 == x);
                        }
                    }
                    if (exists|j: int|
                        0 <= j < i + 1 && (#[trigger] self.as_dict.pairs()[j]).0 == x)
                        && g.contains_key(x) && g[x].spec_is_stub() {
                        let j = choose|j: int|
                            0 <= j < i + 1 && (#[trigger] self.as_dict.pairs()[j]).0 == x;
                        if j < i {
                            assert(pre_stubs.contains(x));
                        } else {
                            assert(x == asn);
                        }
                    }
                }
                assert forall|x: ASN|
                    #[trigger] multihomed@.contains(x) <==> ((exists|j: int|
                        0 <= j < i + 1 && (#[trigger] self.as_dict.pairs()[j]).0 == x)
                        && g.contains_key(x) && g[x].spec_is_multihomed()) by {
                    if multihomed@.contains(x) {
                        if pre_multihomed.contains(x) {
                            let j = choose|j: int|
                                0 <= j < i && (#[trigger] self.as_dict.pairs()[j]).0 == x;
                            assert(0 <= j < i + 1 && self.as_dict.pairs()[j].0 == x);
                        } else {
                            assert(x == asn);
                            assert(self.as_dict.pairs()[i as int].0 == x);
                        }
                    }
                    if (exists|j: int|
                        0 <= j < i + 1 && (#[trigger] self.as_dict.pairs()[j]).0 == x)
                        && g.contains_key(x) && g[x].spec_is_multihomed() {
                        let j = choose|j: int|
                            0 <= j < i + 1 && (#[trigger] self.as_dict.pairs()[j]).0 == x;
                        if j < i {
                            assert(pre_multihomed.contains(x));
                        } else {
                            assert(x == asn);
                        }
                    }
                }
                assert forall|x: ASN|
                    #[trigger] stubs_or_mh@.contains(x) <==> ((exists|j: int|
                        0 <= j < i + 1 && (#[trigger] self.as_dict.pairs()[j]).0 == x)
                        && g.contains_key(x) && (g[x].spec_is_stub() || g[x].spec_is_multihomed())) by {
                    if stubs_or_mh@.contains(x) {
                        if pre_stubs_or_mh.contains(x) {
                            let j = choose|j: int|
                                0 <= j < i && (#[trigger] self.as_dict.pairs()[j]).0 == x;
                            assert(0 <= j < i + 1 && self.as_dict.pairs()[j].0 == x);
                        } else {
                            assert(x == asn);
                            assert(self.as_dict.pairs()[i as int].0 == x);
                        }
                    }
                    if (exists|j: int|
                        0 <= j < i + 1 && (#[trigger] self.as_dict.pairs()[j]).0 == x)
                        && g.contains_key(x) && (g[x].spec_is_stub() || g[x].spec_is_multihomed()) {
                        let j = choose|j: int|
                            0 <= j < i + 1 && (#[trigger] self.as_dict.pairs()[j]).0 == x;
                        if j < i {
                            assert(pre_stubs_or_mh.contains(x));
                        } else {
                            assert(x == asn);
                        }
                    }
                }
                assert forall|x: ASN|
                    #[trigger] transit@.contains(x) <==> ((exists|j: int|
                        0 <= j < i + 1 && (#[trigger] self.as_dict.pairs()[j]).0 == x)
                        && g.contains_key(x) && g[x].spec_is_transit()) by {
                    if transit@.contains(x) {
                        if pre_transit.contains(x) {
                            let j = choose|j: int|
                                0 <= j < i && (#[trigger] self.as_dict.pairs()[j]).0 == x;
                            assert(0 <= j < i + 1 && self.as_dict.pairs()[j].0 == x);
                        } else {
                            assert(x == asn);
                            assert(self.as_dict.pairs()[i as int].0 == x);
                        }
                    }
                    if (exists|j: int|
                        0 <= j < i + 1 && (#[trigger] self.as_dict.pairs()[j]).0 == x)
                        && g.contains_key(x) && g[x].spec_is_transit() {
                        let j = choose|j: int|
                            0 <= j < i + 1 && (#[trigger] self.as_dict.pairs()[j]).0 == x;
                        if j < i {
                            assert(pre_transit.contains(x));
                        } else {
                            assert(x == asn);
                        }
                    }
                }
                assert forall|x: ASN|
                    #[trigger] ixp@.contains(x) <==> ((exists|j: int|
                        0 <= j < i + 1 && (#[trigger] self.as_dict.pairs()[j]).0 == x)
                        && g.contains_key(x) && g[x].ixp) by {
                    if ixp@.contains(x) {
                        if pre_ixp.contains(x) {
                            let j = choose|j: int|
                                0 <= j < i && (#[trigger] self.as_dict.pairs()[j]).0 == x;
                            assert(0 <= j < i + 1 && self.as_dict.pairs()[j].0 == x);
                        } else {
                            assert(x == asn);
                            assert(self.as_dict.pairs()[i as int].0 == x);
                        }
                    }
                    if (exists|j: int|
                        0 <= j < i + 1 && (#[trigger] self.as_dict.pairs()[j]).0 == x)
                        && g.contains_key(x) && g[x].ixp {
                        let j = choose|j: int|
                            0 <= j < i + 1 && (#[trigger] self.as_dict.pairs()[j]).0 == x;
                        if j < i {
                            assert(pre_ixp.contains(x));
                        } else {
                            assert(x == asn);
                        }
                    }
                }
            }
            i = i + 1;
        }
        proof {
            assert forall|x: ASN| g.contains_key(x) implies exists|j: int|
                0 <= j < n && (#[trigger] self.as_dict.pairs()[j]).0 == x by {
                self.as_dict.lemma_view_in_entries(x);
            }
        }
        let mut groups: AssocMap<ASNGroups, Vec<ASN>> = AssocMap::new();
        groups.insert(ASNGroups::Tier1, tier_1);
        groups.insert(ASNGroups::Stubs, stubs);
        groups.insert(ASNGroups::Multihomed, multihomed);
        groups.insert(ASNGroups::StubsOrMh, stubs_or_mh);
        groups.insert(ASNGroups::Transit, transit);
        groups.insert(ASNGroups::Ixp, ixp);
        let etc: Vec<ASN> = Vec::new();
        let input: Vec<ASN> = Vec::new();
        groups.insert(ASNGroups::Etc, etc);
        groups.insert(ASNGroups::Input, input);
        self.asn_groups = groups;
    }
}

/// Edge symmetry of a built graph: when every customer-provider and peer
/// edge is listed by both endpoint builders, as the CAIDA loader emits them,
/// the built graph's edges agree in both directions.
pub proof fn lemma_build_symmetric(builders: Seq<ASBuilder>, g: ASGraph)
    requires
        forall|i: int, j: int|
            0 <= i < j < builders.len() ==> (#[trigger] builders[i]).asn != (
            #[trigger] builders[j]).asn,
        forall|a: ASN|
            g.as_dict@.contains_key(a) <==> exists|i: int|
                0 <= i < builders.len() && (#[trigger] builders[i]).asn == a,
        forall|i: int|
            0 <= i < builders.len() ==> g.as_dict@[(#[trigger] builders[i]).asn]
                =~= spec_built_node(builders[i], builders.map(|j: int, b: ASBuilder| b.asn)),
        forall|i: int, j: int|
            0 <= i < builders.len() && 0 <= j < builders.len() ==> ((#[trigger] builders[
                i
            ]).customer_asns@.contains(builders[j].asn) <==> (#[trigger] builders[
                j
            ]).provider_asns@.contains(builders[i].asn)),
        forall|i: int, j: int|
            0 <= i < builders.len() && 0 <= j < builders.len() ==> ((#[trigger] builders[
                i
            ]).peer_asns@.contains(builders[j].asn) <==> (#[trigger] builders[
                j
            ]).peer_asns@.contains(builders[i].asn)),
    ensures
        crate::caida::spec_edges_symmetric(g.as_dict@),
{
    let all = builders.map(|j: int, b: ASBuilder| b.asn);
    assert forall|a: ASN, b: ASN|
        g.as_dict@.contains_key(a) && g.as_dict@.contains_key(b) implies ((
    #[trigger] g.as_dict@[a].customers.contains(b)) <==> g.as_dict@[b].providers.contains(a)) by {
        let i = choose|i: int| 0 <= i < builders.len() && (#[trigger] builders[i]).asn == a;
        let j = choose|j: int| 0 <= j < builders.len() && (#[trigger] builders[j]).asn == b;
        crate::vecs::lemma_filter_contains(builders[i].customer_asns@, all, b);
        crate::vecs::lemma_filter_contains(builders[j].provider_asns@, all, a);
        assert(all.contains(a)) by {
            assert(all[i] == a);
        }
        assert(all.contains(b)) by {
            assert(all[j] == b);
        }
    }
    assert forall|a: ASN, b: ASN|
        g.as_dict@.contains_key(a) && g.as_dict@.contains_key(b) implies ((
    #[trigger] g.as_dict@[a].peers.contains(b)) <==> g.as_dict@[b].peers.contains(a)) by {
        let i = choose|i: int| 0 <= i < builders.len() && (#[trigger] builders[i]).asn == a;
        let j = choose|j: int| 0 <= j < builders.len() && (#[trigger] builders[j]).asn == b;
        crate::vecs::lemma_filter_contains(builders[i].peer_asns@, all, b);
        crate::vecs::lemma_filter_contains(builders[j].peer_asns@, all, a);
        assert(all.contains(a)) by {
            assert(all[i] == a);
        }
        assert(all.contains(b)) by {
            assert(all[j] == b);
        }
    }
}

/// Helper naming a layer entry of a finished prefix, to steer triggering.
pub open spec fn old_layers_entry(layers: Seq<Vec<ASN>>, k: int, t: int) -> ASN {
    layers[k]@[t]
}

} // verus!
