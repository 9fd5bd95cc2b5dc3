//! The graph builder and metric aggregator.
//!
//! `FlightGraph` folds a stream of parsed records into a directed airport
//! graph — kept in a petgraph structure whose nodes carry airport ids — and
//! the per-airport, per-route and global counters, all maintained
//! incrementally. `ingest` is specified exactly by `model::ingest_model`, and
//! `wf` ties the executable state to the model invariant.

use vstd::prelude::*;
use petgraph::graph::DiGraph;
use crate::model::AirportV;
use crate::model::GraphModel;
use crate::model::RecordV;
use crate::model::RouteV;
use crate::model::bump_route;
use crate::model::credit_dest;
use crate::model::credit_origin;
use crate::model::distinct_ids;
use crate::model::ensure_node;
use crate::model::fresh_airport;
use crate::model::has_id;
use crate::model::has_route;
use crate::model::idx_of;
use crate::model::ingest_model;
use crate::model::init_model;
use crate::model::inv;
use crate::model::lemma_flights_le_sum;
use crate::model::lemma_idx_of_unique;
use crate::model::lemma_ingest_model_inv;
use crate::model::lemma_init_inv;
use crate::model::lemma_passengers_le_sum;
use crate::model::lemma_route_count_le_sum;
use crate::model::lemma_route_idx_unique;
use crate::graph_store::graph_add_edge;
use crate::graph_store::graph_add_node;
use crate::graph_store::graph_edge_count;
use crate::graph_store::graph_edges;
use crate::graph_store::graph_new;
use crate::graph_store::graph_node_count;
use crate::graph_store::graph_node_weight;
use crate::graph_store::graph_nodes;
use crate::records::FlightRecord;
use crate::records::IngestError;
use crate::records::RawRecord;
use crate::records::all_ok;
use crate::records::lemma_sum_raw_prefix_le;
use crate::records::parse_ok;
use crate::records::parse_record;
use crate::records::record_view;
use crate::records::sum_raw_passengers;

verus! {

/// One airport node: permanent display attributes fixed at first sight, and
/// the running counters the aggregator maintains.
pub struct Airport {
    pub id: u32,
    pub name: String,
    pub city: String,
    pub flights: usize,
    pub passengers: usize,
    pub destinations: Vec<u32>,
}

impl View for Airport {
    type V = AirportV;

    open spec fn view(&self) -> AirportV {
        AirportV {
            id: self.id,
            name: self.name@,
            city: self.city@,
            flights: self.flights as nat,
            passengers: self.passengers as nat,
            destinations: self.destinations@,
        }
    }
}

impl Airport {
    /// A fresh airport node: the display attributes are fixed at creation and
    /// every counter starts at zero.
    pub fn new(id: u32, name: String, city: String) -> (r: Airport)
        ensures
            r@ == fresh_airport(id, name@, city@),
    {
        let r = Airport { id, name, city, flights: 0, passengers: 0, destinations: Vec::new() };
        proof {
            assert(r@.destinations =~= fresh_airport(r.id, r.name@, r.city@).destinations);
        }
        r
    }
}

/// One route: an ordered (origin, destination) pair and the number of records
/// that carried it.
pub struct Route {
    pub origin: u32,
    pub dest: u32,
    pub count: usize,
}

impl View for Route {
    type V = RouteV;

    open spec fn view(&self) -> RouteV {
        RouteV { origin: self.origin, dest: self.dest, count: self.count as nat }
    }
}

pub open spec fn view_nodes(s: Seq<Airport>) -> Seq<AirportV> {
    s.map_values(|a: Airport| a@)
}

pub open spec fn view_routes(s: Seq<Route>) -> Seq<RouteV> {
    s.map_values(|r: Route| r@)
}

pub open spec fn node_ids(s: Seq<AirportV>) -> Seq<u32> {
    s.map_values(|a: AirportV| a.id)
}

/// The aggregation state: the petgraph structure, the airport and route
/// tables in first-seen order, the two global totals, and the record history
/// kept for specification.
pub struct FlightGraph {
    pub graph: DiGraph<u32, ()>,
    pub nodes: Vec<Airport>,
    pub routes: Vec<Route>,
    pub total_flights: usize,
    pub total_passengers: usize,
    pub records: Ghost<Seq<RecordV>>,
}

impl View for FlightGraph {
    type V = GraphModel;

    open spec fn view(&self) -> GraphModel {
        GraphModel {
            nodes: view_nodes(self.nodes@),
            routes: view_routes(self.routes@),
            records: self.records@,
            total_flights: self.total_flights as nat,
            total_passengers: self.total_passengers as nat,
        }
    }
}

impl FlightGraph {
    /// Well-formedness: the model invariant holds, and the petgraph structure
    /// mirrors the tables — one graph node per airport in the same order, one
    /// edge per ingested record joining its origin and destination nodes.
    pub open spec fn wf(self) -> bool {
        &&& inv(self@)
        &&& graph_nodes(self.graph) == node_ids(self@.nodes)
        &&& graph_edges(self.graph).len() == self@.records.len()
        &&& (forall|k: int|
            0 <= k < graph_edges(self.graph).len() ==> {
                let e = #[trigger] graph_edges(self.graph)[k];
                &&& e.0 < self@.nodes.len()
                &&& e.1 < self@.nodes.len()
                &&& self@.nodes[e.0 as int].id == self@.records[k].origin
                &&& self@.nodes[e.1 as int].id == self@.records[k].dest
            })
        &&& self@.nodes.len() <= 2 * self@.records.len()
    }

    /// The empty aggregation state.
    pub fn new() -> (r: FlightGraph)
        ensures
            r.wf(),
            r@ == init_model(),
    {
        let r = FlightGraph {
            graph: graph_new(),
            nodes: Vec::new(),
            routes: Vec::new(),
            total_flights: 0,
            total_passengers: 0,
            records: Ghost(Seq::empty()),
        };
        proof {
            lemma_init_inv();
            assert(r@.nodes =~= init_model().nodes);
            assert(r@.routes =~= init_model().routes);
            assert(node_ids(r@.nodes) =~= Seq::<u32>::empty());
        }
        r
    }

    /// The index of the airport with the given id, if it has been seen.
    pub fn find_node(&self, id: u32) -> (r: Option<usize>)
        ensures
            match r {
                Some(i) => i < self@.nodes.len() && self@.nodes[i as int].id == id,
                None => !has_id(self@.nodes, id),
            },
    {
        let n = self.nodes.len();
        let mut i: usize = 0;
        while i < n
            invariant
                0 <= i <= n,
                n == self.nodes@.len(),
                forall|j: int| 0 <= j < i ==> view_nodes(self.nodes@)[j].id != id,
            decreases n - i,
        {
            if self.nodes[i].id == id {
                return Some(i);
            }
            i = i + 1;
        }
        None
    }

    /// The index of the route (origin, dest), if it has been seen.
    fn find_route(&self, origin: u32, dest: u32) -> (r: Option<usize>)
        ensures
            match r {
                Some(k) => k < self@.routes.len() && self@.routes[k as int].origin == origin
                    && self@.routes[k as int].dest == dest,
                None => !has_route(self@.routes, origin, dest),
            },
    {
        let n = self.routes.len();
        let mut k: usize = 0;
        while k < n
            invariant
                0 <= k <= n,
                n == self.routes@.len(),
                forall|j: int|
                    0 <= j < k ==> !(view_routes(self.routes@)[j].origin == origin && view_routes(
                        self.routes@,
                    )[j].dest == dest),
            decreases n - k,
        {
            if self.routes[k].origin == origin && self.routes[k].dest == dest {
                return Some(k);
            }
            k = k + 1;
        }
        None
    }

    /// Look up or create the airport keyed by `id`; a created node enters
    /// both the table and the petgraph structure, with `code` and `city` as
    /// its permanent display attributes.
    fn ensure_airport(&mut self, id: u32, code: &String, city: &String) -> (i: usize)
        requires
            distinct_ids(old(self)@.nodes),
            graph_nodes(old(self).graph) == node_ids(old(self)@.nodes),
            old(self).nodes@.len() < 0xFFFF_FFFF,
        ensures
            final(self)@.nodes == ensure_node(old(self)@.nodes, id, code@, city@),
            distinct_ids(final(self)@.nodes),
            i < final(self)@.nodes.len(),
            final(self)@.nodes[i as int].id == id,
            i as int == idx_of(final(self)@.nodes, id),
            graph_nodes(final(self).graph) == node_ids(final(self)@.nodes),
            graph_edges(final(self).graph) == graph_edges(old(self).graph),
            old(self).nodes@.len() <= final(self).nodes@.len() <= old(self).nodes@.len() + 1,
            final(self).routes == old(self).routes,
            final(self).total_flights == old(self).total_flights,
            final(self).total_passengers == old(self).total_passengers,
            final(self).records == old(self).records,
    {
        match self.find_node(id) {
            Some(i) => {
                proof {
                    lemma_idx_of_unique(self@.nodes, id, i as int);
                }
                i
            },
            None => {
                let i = self.nodes.len();
                let _gi = graph_add_node(&mut self.graph, id);
                let fresh = Airport::new(id, code.clone(), city.clone());
                let ghost old_nodes = view_nodes(self.nodes@);
                self.nodes.push(fresh);
                proof {
                    assert(view_nodes(self.nodes@) =~= old_nodes.push(
                        fresh_airport(id, code@, city@),
                    ));
                    assert forall|a: int, b: int|
                        0 <= a < b < self@.nodes.len() implies self@.nodes[a].id
                        != self@.nodes[b].id by {
                        if b == self@.nodes.len() - 1 {
                            assert(!has_id(old_nodes, id));
                            assert(old_nodes[a].id != id);
                        }
                    }
                    assert(node_ids(view_nodes(self.nodes@)) =~= node_ids(old_nodes).push(id));
                    lemma_idx_of_unique(self@.nodes, id, i as int);
                }
                i
            },
        }
    }

    /// Ingest one record: look up or create both endpoint airports, add the
    /// edge to the graph, credit the origin's flight and distinct-destination
    /// counters, credit the record's passengers to the destination, bump the
    /// route count and the global totals. The whole effect is
    /// `model::ingest_model` applied to the previous state.
    #[verifier::rlimit(100)]
    pub fn ingest(&mut self, rec: &FlightRecord)
        requires
            old(self).wf(),
            old(self)@.records.len() < 0x7FFF_FFFF,
            old(self)@.total_passengers + rec@.passengers <= usize::MAX,
        ensures
            final(self).wf(),
            final(self)@ == ingest_model(
                old(self)@,
                rec@,
                rec.origin_code@,
                rec.origin_city@,
                rec.dest_code@,
                rec.dest_city@,
            ),
    {
        let ghost m0 = self@;
        let ghost rv = rec@;
        proof {
            lemma_ingest_model_inv(
                m0,
                rv,
                rec.origin_code@,
                rec.origin_city@,
                rec.dest_code@,
                rec.dest_city@,
            );
        }
        let oi = self.ensure_airport(rec.origin_id, &rec.origin_code, &rec.origin_city);
        let ghost nodesa = self@.nodes;
        let di = self.ensure_airport(rec.dest_id, &rec.dest_code, &rec.dest_city);
        let ghost nodes0 = self@.nodes;
        proof {
            assert(nodes0 == ensure_node(
                ensure_node(m0.nodes, rv.origin, rec.origin_code@, rec.origin_city@),
                rv.dest,
                rec.dest_code@,
                rec.dest_city@,
            ));
            // the two ensure steps only append, so earlier entries survive
            assert(forall|j: int| 0 <= j < m0.nodes.len() ==> nodesa[j] == m0.nodes[j]);
            assert(forall|j: int| 0 <= j < nodesa.len() ==> nodes0[j] == nodesa[j]);
            // the origin index is still right after the second ensure step
            assert(nodes0[oi as int].id == rv.origin);
            lemma_idx_of_unique(nodes0, rv.origin, oi as int);
        }

        // one edge per record, joining the two endpoint nodes
        let ghost edges0 = graph_edges(self.graph);
        graph_add_edge(&mut self.graph, oi, di);

        // credit the origin node
        let ghost o_old = nodes0[oi as int];
        let mut o = self.nodes.remove(oi);
        proof {
            if oi < m0.nodes.len() {
                assert(o_old == m0.nodes[oi as int]);
                lemma_flights_le_sum(m0.nodes, oi as int);
            } else {
                assert(o_old.flights == 0);
            }
            assert(o_old.flights < usize::MAX);
        }
        o.flights = o.flights + 1;
        if !contains_u32(&o.destinations, rec.dest_id) {
            o.destinations.push(rec.dest_id);
        }
        self.nodes.insert(oi, o);
        let ghost nodes1 = self@.nodes;
        proof {
            assert(nodes1 =~= nodes0.update(oi as int, credit_origin(o_old, rv.dest)));
            assert(forall|j: int| 0 <= j < nodes0.len() ==> nodes1[j].id == nodes0[j].id);
            assert(distinct_ids(nodes1));
            assert(nodes1[di as int].id == rv.dest);
            lemma_idx_of_unique(nodes1, rv.dest, di as int);
        }

        // credit the destination node
        let ghost d_old = nodes1[di as int];
        let mut d = self.nodes.remove(di);
        proof {
            if di < m0.nodes.len() {
                assert(nodes0[di as int] == m0.nodes[di as int]);
                lemma_passengers_le_sum(m0.nodes, di as int);
            } else {
                assert(nodes0[di as int].passengers == 0);
            }
            assert(d_old.passengers == nodes0[di as int].passengers);
            assert(d_old.passengers <= m0.total_passengers);
        }
        d.passengers = d.passengers + rec.passengers;
        self.nodes.insert(di, d);
        let ghost nodes2 = self@.nodes;
        proof {
            assert(nodes2 =~= nodes1.update(di as int, credit_dest(d_old, rv.passengers)));
            assert(forall|j: int| 0 <= j < nodes1.len() ==> nodes2[j].id == nodes1[j].id);
        }

        // bump the route count
        match self.find_route(rec.origin_id, rec.dest_id) {
            Some(k) => {
                proof {
                    lemma_route_idx_unique(m0.routes, rv.origin, rv.dest, k as int);
                    lemma_route_count_le_sum(m0.routes, k as int);
                }
                let mut r = self.routes.remove(k);
                r.count = r.count + 1;
                self.routes.insert(k, r);
                proof {
                    assert(view_routes(self.routes@) =~= bump_route(m0.routes, rv.origin, rv.dest));
                }
            },
            None => {
                self.routes.push(Route { origin: rec.origin_id, dest: rec.dest_id, count: 1 });
                proof {
                    assert(view_routes(self.routes@) =~= bump_route(m0.routes, rv.origin, rv.dest));
                }
            },
        }

        // global totals and the record history
        self.total_flights = self.total_flights + 1;
        self.total_passengers = self.total_passengers + rec.passengers;
        self.records = Ghost(self.records@.push(rv));

        let ghost m1 = ingest_model(
            m0,
            rv,
            rec.origin_code@,
            rec.origin_city@,
            rec.dest_code@,
            rec.dest_city@,
        );
        proof {
            assert(self@.nodes == m1.nodes);
            assert(self@.routes == m1.routes);
            assert(self@ == m1);

            // the petgraph structure still mirrors the tables
            assert(node_ids(nodes2) =~= node_ids(nodes0));
            assert(graph_edges(self.graph) == edges0.push((oi, di)));
            assert forall|k: int| 0 <= k < graph_edges(self.graph).len() implies {
                let e = #[trigger] graph_edges(self.graph)[k];
                &&& e.0 < self@.nodes.len()
                &&& e.1 < self@.nodes.len()
                &&& self@.nodes[e.0 as int].id == self@.records[k].origin
                &&& self@.nodes[e.1 as int].id == self@.records[k].dest
            } by {
                if k < edges0.len() {
                    let e = graph_edges(self.graph)[k];
                    assert(e == edges0[k]);
                    assert(m0.nodes[e.0 as int].id == m0.records[k].origin);
                    assert(m0.nodes[e.1 as int].id == m0.records[k].dest);
                    assert(nodes2[e.0 as int].id == m0.nodes[e.0 as int].id);
                    assert(nodes2[e.1 as int].id == m0.nodes[e.1 as int].id);
                } else {
                    assert(graph_edges(self.graph)[k] == (oi, di));
                    assert(nodes2[oi as int].id == rv.origin);
                    assert(nodes2[di as int].id == rv.dest);
                }
            }
        }
    }

    /// The number of airports seen, read back from the petgraph structure.
    pub fn airport_count(&self) -> (n: usize)
        requires
            self.wf(),
        ensures
            n == self@.nodes.len(),
    {
        graph_node_count(&self.graph)
    }

    /// The number of edges — one per ingested record — read back from the
    /// petgraph structure.
    pub fn flight_edge_count(&self) -> (n: usize)
        requires
            self.wf(),
        ensures
            n == self@.records.len(),
    {
        graph_edge_count(&self.graph)
    }

    /// The airport id stored at a petgraph node index.
    pub fn airport_id_at(&self, i: usize) -> (id: u32)
        requires
            self.wf(),
            i < self@.nodes.len(),
        ensures
            id == self@.nodes[i as int].id,
    {
        graph_node_weight(&self.graph, i)
    }
}

/// The state a batch of raw records builds, record by record in order.
pub open spec fn build_model(raws: Seq<RawRecord>) -> GraphModel
    decreases raws.len(),
{
    if raws.len() == 0 {
        init_model()
    } else {
        let m = build_model(raws.drop_last());
        let raw = raws.last();
        ingest_model(
            m,
            record_view(raw),
            raw.origin_code@,
            raw.origin_city@,
            raw.dest_code@,
            raw.dest_city@,
        )
    }
}

/// Fail-fast ingestion of a whole batch: parse and ingest record by record,
/// and abort on the first malformed id with nothing to show for the run. The
/// two bounds are machine limits on the counters.
pub fn build_from_records(raws: &Vec<RawRecord>) -> (r: Result<FlightGraph, IngestError>)
    requires
        raws@.len() < 0x7FFF_FFFF,
        sum_raw_passengers(raws@) <= usize::MAX,
    ensures
        r is Ok <==> all_ok(raws@),
        r is Ok ==> r->Ok_0.wf() && r->Ok_0@ == build_model(raws@),
        r is Err ==> r->Err_0 == IngestError::ParseError,
{
    let mut g = FlightGraph::new();
    let n = raws.len();
    let mut i: usize = 0;
    proof {
        assert(raws@.take(0) =~= Seq::<RawRecord>::empty());
    }
    while i < n
        invariant
            0 <= i <= n,
            n == raws@.len(),
            raws@.len() < 0x7FFF_FFFF,
            sum_raw_passengers(raws@) <= usize::MAX,
            g.wf(),
            g@ == build_model(raws@.take(i as int)),
            g@.records.len() == i,
            g@.total_passengers == sum_raw_passengers(raws@.take(i as int)),
            forall|t: int| 0 <= t < i ==> parse_ok(#[trigger] raws@[t]),
        decreases n - i,
    {
        let rec = match parse_record(&raws[i]) {
            Ok(rec) => rec,
            Err(e) => {
                proof {
                    assert(!parse_ok(raws@[i as int]));
                }
                return Err(e);
            },
        };
        proof {
            assert(rec@ == record_view(raws@[i as int]));
            assert(raws@.take(i + 1).drop_last() =~= raws@.take(i as int));
            assert(raws@.take(i + 1).last() == raws@[i as int]);
            lemma_sum_raw_prefix_le(raws@, i + 1);
        }
        g.ingest(&rec);
        proof {
            assert(g@ == build_model(raws@.take(i + 1)));
        }
        i = i + 1;
    }
    proof {
        assert(raws@.take(n as int) =~= raws@);
    }
    Ok(g)
}

/// Whether a vector of ids contains `x`.
pub fn contains_u32(v: &Vec<u32>, x: u32) -> (r: bool)
    ensures
        r == v@.contains(x),
{
    let n = v.len();
    let mut i: usize = 0;
    while i < n
        invariant
            0 <= i <= n,
            n == v@.len(),
            forall|j: int| 0 <= j < i ==> v@[j] != x,
        decreases n - i,
    {
        if v[i] == x {
            return true;
        }
        i = i + 1;
    }
    false
}

} // verus!
