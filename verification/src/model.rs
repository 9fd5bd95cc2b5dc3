//! Mathematical model of the aggregation state.
//!
//! The executable builder is specified against `GraphModel`: a sequence of
//! airport nodes in first-seen order, a route frequency table, the sequence of
//! ingested records, and the two global totals. `inv` is the well-formedness
//! condition that ingestion establishes and preserves.

use vstd::prelude::*;

verus! {

/// Model of one airport node. `destinations` is kept as a duplicate-free
/// sequence in first-seen order; under `inv` it denotes the set of distinct
/// destination ids reached from this airport.
pub ghost struct AirportV {
    pub id: u32,
    pub name: Seq<char>,
    pub city: Seq<char>,
    pub flights: nat,
    pub passengers: nat,
    pub destinations: Seq<u32>,
}

/// Model of one route: an ordered (origin, destination) pair with the number
/// of records that carried exactly this pair.
pub ghost struct RouteV {
    pub origin: u32,
    pub dest: u32,
    pub count: nat,
}

/// Model of one ingested record, after field parsing.
pub ghost struct RecordV {
    pub origin: u32,
    pub dest: u32,
    pub passengers: nat,
}

/// The whole aggregation state.
pub ghost struct GraphModel {
    pub nodes: Seq<AirportV>,
    pub routes: Seq<RouteV>,
    pub records: Seq<RecordV>,
    pub total_flights: nat,
    pub total_passengers: nat,
}

pub open spec fn has_id(nodes: Seq<AirportV>, id: u32) -> bool {
    exists|i: int| 0 <= i < nodes.len() && nodes[i].id == id
}

pub open spec fn idx_of(nodes: Seq<AirportV>, id: u32) -> int {
    choose|i: int| 0 <= i < nodes.len() && nodes[i].id == id
}

pub open spec fn distinct_ids(nodes: Seq<AirportV>) -> bool {
    forall|i: int, j: int| 0 <= i < j < nodes.len() ==> nodes[i].id != nodes[j].id
}

pub open spec fn has_route(routes: Seq<RouteV>, o: u32, d: u32) -> bool {
    exists|k: int| 0 <= k < routes.len() && routes[k].origin == o && routes[k].dest == d
}

pub open spec fn route_idx(routes: Seq<RouteV>, o: u32, d: u32) -> int {
    choose|k: int| 0 <= k < routes.len() && routes[k].origin == o && routes[k].dest == d
}

pub open spec fn distinct_routes(routes: Seq<RouteV>) -> bool {
    forall|i: int, j: int|
        0 <= i < j < routes.len() ==> !(routes[i].origin == routes[j].origin
            && routes[i].dest == routes[j].dest)
}

pub open spec fn sum_flights(s: Seq<AirportV>) -> nat
    decreases s.len(),
{
    if s.len() == 0 {
        0
    } else {
        sum_flights(s.drop_last()) + s.last().flights
    }
}

pub open spec fn sum_passengers(s: Seq<AirportV>) -> nat
    decreases s.len(),
{
    if s.len() == 0 {
        0
    } else {
        sum_passengers(s.drop_last()) + s.last().passengers
    }
}

pub open spec fn sum_route_counts(s: Seq<RouteV>) -> nat
    decreases s.len(),
{
    if s.len() == 0 {
        0
    } else {
        sum_route_counts(s.drop_last()) + s.last().count
    }
}

pub open spec fn sum_record_passengers(s: Seq<RecordV>) -> nat
    decreases s.len(),
{
    if s.len() == 0 {
        0
    } else {
        sum_record_passengers(s.drop_last()) + s.last().passengers
    }
}

/// Well-formedness of the aggregation state: node ids and route pairs are
/// unique, destination sets are duplicate-free and resolvable, every counter
/// agrees with the record history, and the conservation laws hold.
pub open spec fn inv(m: GraphModel) -> bool {
    &&& distinct_ids(m.nodes)
    &&& distinct_routes(m.routes)
    &&& (forall|i: int|
        0 <= i < m.nodes.len() ==> (#[trigger] m.nodes[i]).destinations.no_duplicates())
    &&& (forall|i: int|
        0 <= i < m.nodes.len() ==> (#[trigger] m.nodes[i]).destinations.len()
            <= m.nodes[i].flights)
    &&& (forall|i: int, k: int|
        0 <= i < m.nodes.len() && 0 <= k < m.nodes[i].destinations.len() ==> has_id(
            m.nodes,
            #[trigger] m.nodes[i].destinations[k],
        ))
    &&& (forall|k: int|
        0 <= k < m.routes.len() ==> has_id(m.nodes, (#[trigger] m.routes[k]).origin) && has_id(
            m.nodes,
            m.routes[k].dest,
        ) && m.routes[k].count >= 1)
    &&& sum_flights(m.nodes) == m.total_flights
    &&& sum_passengers(m.nodes) == m.total_passengers
    &&& sum_route_counts(m.routes) == m.total_flights
    &&& m.total_flights == m.records.len()
    &&& m.total_passengers == sum_record_passengers(m.records)
}

/// The state before any record has been ingested.
pub open spec fn init_model() -> GraphModel {
    GraphModel {
        nodes: Seq::empty(),
        routes: Seq::empty(),
        records: Seq::empty(),
        total_flights: 0,
        total_passengers: 0,
    }
}

pub open spec fn fresh_airport(id: u32, name: Seq<char>, city: Seq<char>) -> AirportV {
    AirportV { id, name, city, flights: 0, passengers: 0, destinations: Seq::empty() }
}

/// Look up or create the node for `id`; on creation the given display
/// attributes become permanent (first-seen values win).
pub open spec fn ensure_node(
    nodes: Seq<AirportV>,
    id: u32,
    name: Seq<char>,
    city: Seq<char>,
) -> Seq<AirportV> {
    if has_id(nodes, id) {
        nodes
    } else {
        nodes.push(fresh_airport(id, name, city))
    }
}

/// Effect of one record on its origin node: one more outbound flight, and the
/// destination id joins the distinct-destination set.
pub open spec fn credit_origin(a: AirportV, dest: u32) -> AirportV {
    AirportV {
        flights: a.flights + 1,
        destinations: if a.destinations.contains(dest) {
            a.destinations
        } else {
            a.destinations.push(dest)
        },
        ..a
    }
}

/// Effect of one record on its destination node: the record's passengers are
/// credited to the destination, and to no other node.
pub open spec fn credit_dest(a: AirportV, passengers: nat) -> AirportV {
    AirportV { passengers: a.passengers + passengers, ..a }
}

/// One more observation of the route (o, d): its count rises by one, a fresh
/// route starts at one.
pub open spec fn bump_route(routes: Seq<RouteV>, o: u32, d: u32) -> Seq<RouteV> {
    if has_route(routes, o, d) {
        let k = route_idx(routes, o, d);
        routes.update(k, RouteV { count: routes[k].count + 1, ..routes[k] })
    } else {
        routes.push(RouteV { origin: o, dest: d, count: 1 })
    }
}

/// The full effect of ingesting one record, as a function of the state.
pub open spec fn ingest_model(
    m: GraphModel,
    r: RecordV,
    origin_name: Seq<char>,
    origin_city: Seq<char>,
    dest_name: Seq<char>,
    dest_city: Seq<char>,
) -> GraphModel {
    let nodes0 = ensure_node(
        ensure_node(m.nodes, r.origin, origin_name, origin_city),
        r.dest,
        dest_name,
        dest_city,
    );
    let oi = idx_of(nodes0, r.origin);
    let nodes1 = nodes0.update(oi, credit_origin(nodes0[oi], r.dest));
    let di = idx_of(nodes1, r.dest);
    let nodes2 = nodes1.update(di, credit_dest(nodes1[di], r.passengers));
    GraphModel {
        nodes: nodes2,
        routes: bump_route(m.routes, r.origin, r.dest),
        records: m.records.push(r),
        total_flights: m.total_flights + 1,
        total_passengers: m.total_passengers + r.passengers,
    }
}

pub proof fn lemma_sum_flights_push(s: Seq<AirportV>, a: AirportV)
    ensures
        sum_flights(s.push(a)) == sum_flights(s) + a.flights,
{
    assert(s.push(a).drop_last() =~= s);
}

pub proof fn lemma_sum_passengers_push(s: Seq<AirportV>, a: AirportV)
    ensures
        sum_passengers(s.push(a)) == sum_passengers(s) + a.passengers,
{
    assert(s.push(a).drop_last() =~= s);
}

pub proof fn lemma_sum_route_counts_push(s: Seq<RouteV>, r: RouteV)
    ensures
        sum_route_counts(s.push(r)) == sum_route_counts(s) + r.count,
{
    assert(s.push(r).drop_last() =~= s);
}

pub proof fn lemma_sum_record_passengers_push(s: Seq<RecordV>, r: RecordV)
    ensures
        sum_record_passengers(s.push(r)) == sum_record_passengers(s) + r.passengers,
{
    assert(s.push(r).drop_last() =~= s);
}

pub proof fn lemma_sum_flights_update(s: Seq<AirportV>, i: int, a: AirportV)
    requires
        0 <= i < s.len(),
    ensures
        sum_flights(s.update(i, a)) == sum_flights(s) - s[i].flights + a.flights,
    decreases s.len(),
{
    if i == s.len() - 1 {
        assert(s.update(i, a).drop_last() =~= s.drop_last());
    } else {
        assert(s.update(i, a).drop_last() =~= s.drop_last().update(i, a));
        lemma_sum_flights_update(s.drop_last(), i, a);
    }
}

pub proof fn lemma_sum_passengers_update(s: Seq<AirportV>, i: int, a: AirportV)
    requires
        0 <= i < s.len(),
    ensures
        sum_passengers(s.update(i, a)) == sum_passengers(s) - s[i].passengers + a.passengers,
    decreases s.len(),
{
    if i == s.len() - 1 {
        assert(s.update(i, a).drop_last() =~= s.drop_last());
    } else {
        assert(s.update(i, a).drop_last() =~= s.drop_last().update(i, a));
        lemma_sum_passengers_update(s.drop_last(), i, a);
    }
}

pub proof fn lemma_sum_route_counts_update(s: Seq<RouteV>, i: int, r: RouteV)
    requires
        0 <= i < s.len(),
    ensures
        sum_route_counts(s.update(i, r)) == sum_route_counts(s) - s[i].count + r.count,
    decreases s.len(),
{
    if i == s.len() - 1 {
        assert(s.update(i, r).drop_last() =~= s.drop_last());
    } else {
        assert(s.update(i, r).drop_last() =~= s.drop_last().update(i, r));
        lemma_sum_route_counts_update(s.drop_last(), i, r);
    }
}

pub proof fn lemma_flights_le_sum(s: Seq<AirportV>, i: int)
    requires
        0 <= i < s.len(),
    ensures
        s[i].flights <= sum_flights(s),
    decreases s.len(),
{
    if i < s.len() - 1 {
        lemma_flights_le_sum(s.drop_last(), i);
    }
}

pub proof fn lemma_passengers_le_sum(s: Seq<AirportV>, i: int)
    requires
        0 <= i < s.len(),
    ensures
        s[i].passengers <= sum_passengers(s),
    decreases s.len(),
{
    if i < s.len() - 1 {
        lemma_passengers_le_sum(s.drop_last(), i);
    }
}

pub proof fn lemma_route_count_le_sum(s: Seq<RouteV>, i: int)
    requires
        0 <= i < s.len(),
    ensures
        s[i].count <= sum_route_counts(s),
    decreases s.len(),
{
    if i < s.len() - 1 {
        lemma_route_count_le_sum(s.drop_last(), i);
    }
}

/// With distinct ids, any index holding `id` is the index `idx_of` denotes.
pub proof fn lemma_idx_of_unique(nodes: Seq<AirportV>, id: u32, i: int)
    requires
        distinct_ids(nodes),
        0 <= i < nodes.len(),
        nodes[i].id == id,
    ensures
        has_id(nodes, id),
        idx_of(nodes, id) == i,
{
    assert(has_id(nodes, id));
    let j = idx_of(nodes, id);
    assert(0 <= j < nodes.len() && nodes[j].id == id);
}

/// With distinct route pairs, any index holding (o, d) is the index
/// `route_idx` denotes.
pub proof fn lemma_route_idx_unique(routes: Seq<RouteV>, o: u32, d: u32, k: int)
    requires
        distinct_routes(routes),
        0 <= k < routes.len(),
        routes[k].origin == o,
        routes[k].dest == d,
    ensures
        has_route(routes, o, d),
        route_idx(routes, o, d) == k,
{
    assert(has_route(routes, o, d));
    let j = route_idx(routes, o, d);
    assert(0 <= j < routes.len() && routes[j].origin == o && routes[j].dest == d);
}

/// The empty state is well formed.
pub proof fn lemma_init_inv()
    ensures
        inv(init_model()),
{
    assert(sum_flights(Seq::<AirportV>::empty()) == 0);
    assert(sum_passengers(Seq::<AirportV>::empty()) == 0);
    assert(sum_route_counts(Seq::<RouteV>::empty()) == 0);
    assert(sum_record_passengers(Seq::<RecordV>::empty()) == 0);
}

proof fn lemma_ensure_node_props(nodes: Seq<AirportV>, id: u32, name: Seq<char>, city: Seq<char>)
    requires
        distinct_ids(nodes),
    ensures
        ({
            let r = ensure_node(nodes, id, name, city);
            &&& distinct_ids(r)
            &&& has_id(r, id)
            &&& r.len() >= nodes.len()
            &&& r.len() <= nodes.len() + 1
            &&& (forall|i: int| 0 <= i < nodes.len() ==> r[i] == nodes[i])
            &&& (forall|x: u32| has_id(nodes, x) ==> has_id(r, x))
            &&& (forall|x: u32| has_id(r, x) ==> has_id(nodes, x) || x == id)
            &&& sum_flights(r) == sum_flights(nodes)
            &&& sum_passengers(r) == sum_passengers(nodes)
        }),
{
    let r = ensure_node(nodes, id, name, city);
    if has_id(nodes, id) {
    } else {
        lemma_sum_flights_push(nodes, fresh_airport(id, name, city));
        lemma_sum_passengers_push(nodes, fresh_airport(id, name, city));
        assert(r[nodes.len() as int].id == id);
        assert forall|x: u32| has_id(nodes, x) implies has_id(r, x) by {
            let w = choose|i: int| 0 <= i < nodes.len() && nodes[i].id == x;
            assert(r[w].id == x);
        }
    }
}

/// Ingesting one record preserves well-formedness, whatever display names the
/// record carries.
pub proof fn lemma_ingest_model_inv(
    m: GraphModel,
    r: RecordV,
    origin_name: Seq<char>,
    origin_city: Seq<char>,
    dest_name: Seq<char>,
    dest_city: Seq<char>,
)
    requires
        inv(m),
    ensures
        inv(ingest_model(m, r, origin_name, origin_city, dest_name, dest_city)),
{
    let nodesa = ensure_node(m.nodes, r.origin, origin_name, origin_city);
    lemma_ensure_node_props(m.nodes, r.origin, origin_name, origin_city);
    let nodes0 = ensure_node(nodesa, r.dest, dest_name, dest_city);
    lemma_ensure_node_props(nodesa, r.dest, dest_name, dest_city);

    // node-local invariants carry over to the grown sequence
    assert forall|i: int| 0 <= i < nodes0.len() implies (#[trigger] nodes0[i]).destinations.no_duplicates()
        && nodes0[i].destinations.len() <= nodes0[i].flights && (forall|k: int|
        0 <= k < nodes0[i].destinations.len() ==> has_id(nodes0, #[trigger] nodes0[i].destinations[k])) by {
        if i < m.nodes.len() {
            assert(nodes0[i] == m.nodes[i]);
            assert forall|k: int| 0 <= k < nodes0[i].destinations.len() implies has_id(
                nodes0,
                #[trigger] nodes0[i].destinations[k],
            ) by {
                assert(has_id(m.nodes, m.nodes[i].destinations[k]));
            }
        } else {
            assert(nodes0[i].destinations =~= Seq::<u32>::empty());
        }
    }

    let oi = idx_of(nodes0, r.origin);
    assert(0 <= oi < nodes0.len() && nodes0[oi].id == r.origin);
    let o_new = credit_origin(nodes0[oi], r.dest);
    let nodes1 = nodes0.update(oi, o_new);
    lemma_sum_flights_update(nodes0, oi, o_new);
    lemma_sum_passengers_update(nodes0, oi, o_new);

    // the updated origin node keeps its invariants
    assert(o_new.destinations.no_duplicates()) by {
        let ds = nodes0[oi].destinations;
        if !ds.contains(r.dest) {
            assert forall|i: int, j: int|
                0 <= i < j < ds.push(r.dest).len() implies ds.push(r.dest)[i] != ds.push(
                r.dest,
            )[j] by {
                if j < ds.len() {
                } else {
                    assert(ds.push(r.dest)[j] == r.dest);
                    assert(ds[i] == ds.push(r.dest)[i]);
                }
            }
        }
    }
    assert(distinct_ids(nodes1));
    assert forall|x: u32| has_id(nodes0, x) implies has_id(nodes1, x) by {
        let w = choose|i: int| 0 <= i < nodes0.len() && nodes0[i].id == x;
        assert(nodes1[w].id == x);
    }

    let di = idx_of(nodes1, r.dest);
    assert(has_id(nodes1, r.dest));
    assert(0 <= di < nodes1.len() && nodes1[di].id == r.dest);
    let d_new = credit_dest(nodes1[di], r.passengers);
    let nodes2 = nodes1.update(di, d_new);
    lemma_sum_flights_update(nodes1, di, d_new);
    lemma_sum_passengers_update(nodes1, di, d_new);
    assert(distinct_ids(nodes2));
    assert forall|x: u32| has_id(nodes1, x) implies has_id(nodes2, x) by {
        let w = choose|i: int| 0 <= i < nodes1.len() && nodes1[i].id == x;
        assert(nodes2[w].id == x);
    }

    // per-node invariants of the final node sequence
    assert forall|i: int| 0 <= i < nodes2.len() implies (#[trigger] nodes2[i]).destinations.no_duplicates()
        && nodes2[i].destinations.len() <= nodes2[i].flights && (forall|k: int|
        0 <= k < nodes2[i].destinations.len() ==> has_id(nodes2, #[trigger] nodes2[i].destinations[k])) by {
        if i == di && i == oi {
            assert(nodes2[i] == credit_dest(o_new, r.passengers));
        } else if i == di {
            assert(nodes2[i] == credit_dest(nodes0[di], r.passengers));
        } else if i == oi {
            assert(nodes2[i] == o_new);
        } else {
            assert(nodes2[i] == nodes0[i]);
        }
        assert forall|k: int| 0 <= k < nodes2[i].destinations.len() implies has_id(
            nodes2,
            #[trigger] nodes2[i].destinations[k],
        ) by {
            let d = nodes2[i].destinations[k];
            if i == oi && k == nodes0[oi].destinations.len() {
                assert(d == r.dest);
                assert(has_id(nodes2, r.dest));
            } else {
                assert(has_id(nodes0, d));
            }
        }
    }

    // routes
    let routes2 = bump_route(m.routes, r.origin, r.dest);
    if has_route(m.routes, r.origin, r.dest) {
        let k = route_idx(m.routes, r.origin, r.dest);
        assert(0 <= k < m.routes.len() && m.routes[k].origin == r.origin && m.routes[k].dest
            == r.dest);
        lemma_sum_route_counts_update(
            m.routes,
            k,
            RouteV { count: m.routes[k].count + 1, ..m.routes[k] },
        );
        assert(distinct_routes(routes2));
        assert forall|j: int| 0 <= j < routes2.len() implies has_id(
            nodes2,
            (#[trigger] routes2[j]).origin,
        ) && has_id(nodes2, routes2[j].dest) && routes2[j].count >= 1 by {
            assert(has_id(m.nodes, routes2[j].origin));
            assert(has_id(m.nodes, routes2[j].dest));
        }
    } else {
        lemma_sum_route_counts_push(m.routes, RouteV { origin: r.origin, dest: r.dest, count: 1 });
        assert forall|i: int, j: int| 0 <= i < j < routes2.len() implies !(routes2[i].origin
            == routes2[j].origin && routes2[i].dest == routes2[j].dest) by {
            if j == m.routes.len() {
                assert(routes2[j].origin == r.origin && routes2[j].dest == r.dest);
                assert(!(m.routes[i].origin == r.origin && m.routes[i].dest == r.dest));
            }
        }
        assert forall|j: int| 0 <= j < routes2.len() implies has_id(
            nodes2,
            (#[trigger] routes2[j]).origin,
        ) && has_id(nodes2, routes2[j].dest) && routes2[j].count >= 1 by {
            if j < m.routes.len() {
                assert(has_id(m.nodes, routes2[j].origin));
                assert(has_id(m.nodes, routes2[j].dest));
            } else {
                assert(has_id(nodes2, r.origin));
                assert(has_id(nodes2, r.dest));
            }
        }
    }

    // records
    lemma_sum_record_passengers_push(m.records, r);
}

/// Law: the per-airport outbound flight counters sum to the number of flights
/// processed, which is the number of records ingested.
pub proof fn lemma_flight_conservation(m: GraphModel)
    requires
        inv(m),
    ensures
        sum_flights(m.nodes) == m.total_flights,
        m.total_flights == m.records.len(),
{
}

/// Law: the per-airport passenger counters sum to the number of passengers
/// processed, which is the sum of the passenger fields of all records.
pub proof fn lemma_passenger_conservation(m: GraphModel)
    requires
        inv(m),
    ensures
        sum_passengers(m.nodes) == m.total_passengers,
        m.total_passengers == sum_record_passengers(m.records),
{
}

/// Law: no airport reaches more distinct destinations than it has outbound
/// flights.
pub proof fn lemma_destinations_bounded(m: GraphModel, i: int)
    requires
        inv(m),
        0 <= i < m.nodes.len(),
    ensures
        m.nodes[i].destinations.len() <= m.nodes[i].flights,
{
}

/// Law: the route counts sum to the number of flights processed.
pub proof fn lemma_route_conservation(m: GraphModel)
    requires
        inv(m),
    ensures
        sum_route_counts(m.routes) == m.total_flights,
        sum_route_counts(m.routes) == m.records.len(),
{
}

} // verus!
