//! The ranking engine.
//!
//! Three independent queries over the final aggregated state: airports
//! ordered by outbound flight count (with ascending id as the deterministic
//! tie-break), the top destination cities of configured anchor airports, and
//! routes ordered by frequency. Nothing here mutates the graph.

use vstd::prelude::*;
use crate::model::AirportV;
use crate::model::has_id;
use crate::model::idx_of;
use crate::model::lemma_idx_of_unique;
use crate::builder::FlightGraph;
use crate::builder::Route;
use crate::builder::view_routes;
use crate::model::RouteV;

verus! {

/// One line of the airport ranking: the airport's display attributes and its
/// final counters.
pub struct RankEntry {
    pub id: u32,
    pub name: String,
    pub city: String,
    pub flights: usize,
    pub passengers: usize,
    pub destinations: usize,
}

/// Model of one ranking line.
pub ghost struct RankEntryV {
    pub id: u32,
    pub name: Seq<char>,
    pub city: Seq<char>,
    pub flights: nat,
    pub passengers: nat,
    pub destinations: nat,
}

impl View for RankEntry {
    type V = RankEntryV;

    open spec fn view(&self) -> RankEntryV {
        RankEntryV {
            id: self.id,
            name: self.name@,
            city: self.city@,
            flights: self.flights as nat,
            passengers: self.passengers as nat,
            destinations: self.destinations as nat,
        }
    }
}

pub open spec fn entries_view(s: Seq<RankEntry>) -> Seq<RankEntryV> {
    s.map_values(|e: RankEntry| e@)
}

/// The ranking line an airport node yields.
pub open spec fn entry_of(a: AirportV) -> RankEntryV {
    RankEntryV {
        id: a.id,
        name: a.name,
        city: a.city,
        flights: a.flights,
        passengers: a.passengers,
        destinations: a.destinations.len(),
    }
}

/// The ranking order: more outbound flights first, and among equal flight
/// counts the smaller airport id first.
pub open spec fn rank_before(a: RankEntryV, b: RankEntryV) -> bool {
    a.flights > b.flights || (a.flights == b.flights && a.id <= b.id)
}

pub open spec fn rank_sorted(s: Seq<RankEntryV>) -> bool {
    forall|i: int, j: int| 0 <= i < j < s.len() ==> rank_before(s[i], s[j])
}

/// The ranking lines of the airports with at least one outbound flight, in
/// node order.
pub open spec fn active_entries(nodes: Seq<AirportV>) -> Seq<RankEntryV> {
    nodes.filter(|a: AirportV| a.flights > 0).map_values(|a: AirportV| entry_of(a))
}

proof fn lemma_active_entries_push(s: Seq<AirportV>, a: AirportV)
    ensures
        active_entries(s.push(a)) == if a.flights > 0 {
            active_entries(s).push(entry_of(a))
        } else {
            active_entries(s)
        },
{
    reveal(Seq::filter);
    let pred = |x: AirportV| x.flights > 0;
    assert(s.push(a).drop_last() =~= s);
    if a.flights > 0 {
        assert(s.push(a).filter(pred) == s.filter(pred).push(a));
        assert(s.filter(pred).push(a).map_values(|x: AirportV| entry_of(x)) =~= s.filter(
            pred,
        ).map_values(|x: AirportV| entry_of(x)).push(entry_of(a)));
    }
}

/// Sort ranking lines by `rank_before`: the result is an ordered
/// rearrangement of the input.
fn sort_rank_entries(v: Vec<RankEntry>) -> (r: Vec<RankEntry>)
    ensures
        entries_view(r@).to_multiset() == entries_view(v@).to_multiset(),
        rank_sorted(entries_view(r@)),
{
    let mut work = v;
    let mut out: Vec<RankEntry> = Vec::new();
    proof {
        broadcast use vstd::seq_lib::group_to_multiset_ensures;

        assert(entries_view(out@) =~= Seq::<RankEntryV>::empty());
        assert(entries_view(out@).to_multiset().add(entries_view(work@).to_multiset())
            =~= entries_view(v@).to_multiset());
    }
    while work.len() > 0
        invariant
            entries_view(out@).to_multiset().add(entries_view(work@).to_multiset())
                == entries_view(v@).to_multiset(),
            rank_sorted(entries_view(out@)),
            forall|a: int, b: int|
                0 <= a < out@.len() && 0 <= b < work@.len() ==> rank_before(
                    entries_view(out@)[a],
                    entries_view(work@)[b],
                ),
        decreases work.len(),
    {
        let mut m: usize = 0;
        let mut j: usize = 1;
        while j < work.len()
            invariant
                0 <= m < j <= work@.len(),
                forall|t: int| 0 <= t < j ==> rank_before(entries_view(work@)[m as int], entries_view(work@)[t]),
            decreases work@.len() - j,
        {
            if work[j].flights > work[m].flights || (work[j].flights == work[m].flights
                && work[j].id <= work[m].id) {
                m = j;
            }
            j = j + 1;
        }
        let ghost old_work = work@;
        let ghost old_out = out@;
        let x = work.remove(m);
        out.push(x);
        proof {
            broadcast use vstd::seq_lib::group_to_multiset_ensures;

            assert(entries_view(work@) =~= entries_view(old_work).remove(m as int));
            assert(entries_view(out@) =~= entries_view(old_out).push(x@));
            assert(x@ == entries_view(old_work)[m as int]);
            assert(entries_view(out@).to_multiset().add(entries_view(work@).to_multiset())
                =~= entries_view(old_out).to_multiset().add(
                entries_view(old_work).to_multiset(),
            ));
        }
    }
    out
}

/// Law: an ordered ranking is non-increasing in flight count from one line
/// to the next.
pub proof fn lemma_ranking_nonincreasing(s: Seq<RankEntryV>)
    requires
        rank_sorted(s),
    ensures
        forall|i: int, j: int| 0 <= i <= j < s.len() ==> s[i].flights >= s[j].flights,
{
    assert forall|i: int, j: int| 0 <= i <= j < s.len() implies s[i].flights >= s[j].flights by {
        if i < j {
            assert(rank_before(s[i], s[j]));
        }
    }
}

impl FlightGraph {
    /// Airport ranking: every airport with at least one outbound flight,
    /// ordered by descending flight count with ascending id as the
    /// deterministic tie-break.
    pub fn rank_airports(&self) -> (r: Vec<RankEntry>)
        requires
            self.wf(),
        ensures
            entries_view(r@).to_multiset() == active_entries(self@.nodes).to_multiset(),
            rank_sorted(entries_view(r@)),
    {
        let n = self.nodes.len();
        let mut picked: Vec<RankEntry> = Vec::new();
        let mut i: usize = 0;
        proof {
            assert(self@.nodes.take(0) =~= Seq::<AirportV>::empty());
            reveal(Seq::filter);
            assert(entries_view(picked@) =~= active_entries(self@.nodes.take(0)));
        }
        while i < n
            invariant
                0 <= i <= n,
                n == self.nodes@.len(),
                entries_view(picked@) == active_entries(self@.nodes.take(i as int)),
            decreases n - i,
        {
            proof {
                assert(self@.nodes.take(i + 1) =~= self@.nodes.take(i as int).push(
                    self@.nodes[i as int],
                ));
                lemma_active_entries_push(self@.nodes.take(i as int), self@.nodes[i as int]);
            }
            let a = &self.nodes[i];
            if a.flights > 0 {
                let e = RankEntry {
                    id: a.id,
                    name: a.name.clone(),
                    city: a.city.clone(),
                    flights: a.flights,
                    passengers: a.passengers,
                    destinations: a.destinations.len(),
                };
                let ghost old_picked = picked@;
                picked.push(e);
                proof {
                    assert(e@ == entry_of(self@.nodes[i as int]));
                    assert(entries_view(picked@) =~= entries_view(old_picked).push(e@));
                }
            }
            i = i + 1;
        }
        proof {
            assert(self@.nodes.take(n as int) =~= self@.nodes);
        }
        sort_rank_entries(picked)
    }
}

/// One line of the route ranking, with the endpoints resolved to their
/// display codes.
pub struct RouteEntry {
    pub origin_code: String,
    pub dest_code: String,
    pub count: usize,
}

/// The route ranking order: higher count first, and among equal counts the
/// lexicographically smaller (origin, dest) id pair first.
pub open spec fn route_before(a: RouteV, b: RouteV) -> bool {
    ||| a.count > b.count
    ||| (a.count == b.count && a.origin < b.origin)
    ||| (a.count == b.count && a.origin == b.origin && a.dest <= b.dest)
}

pub open spec fn route_sorted(s: Seq<RouteV>) -> bool {
    forall|i: int, j: int| 0 <= i < j < s.len() ==> route_before(s[i], s[j])
}

/// Sort routes by `route_before`: the result is an ordered rearrangement of
/// the input.
fn sort_routes(v: Vec<Route>) -> (r: Vec<Route>)
    ensures
        view_routes(r@).to_multiset() == view_routes(v@).to_multiset(),
        route_sorted(view_routes(r@)),
{
    let mut work = v;
    let mut out: Vec<Route> = Vec::new();
    proof {
        broadcast use vstd::seq_lib::group_to_multiset_ensures;

        assert(view_routes(out@) =~= Seq::<RouteV>::empty());
        assert(view_routes(out@).to_multiset().add(view_routes(work@).to_multiset())
            =~= view_routes(v@).to_multiset());
    }
    while work.len() > 0
        invariant
            view_routes(out@).to_multiset().add(view_routes(work@).to_multiset())
                == view_routes(v@).to_multiset(),
            route_sorted(view_routes(out@)),
            forall|a: int, b: int|
                0 <= a < out@.len() && 0 <= b < work@.len() ==> route_before(
                    view_routes(out@)[a],
                    view_routes(work@)[b],
                ),
        decreases work.len(),
    {
        let mut m: usize = 0;
        let mut j: usize = 1;
        while j < work.len()
            invariant
                0 <= m < j <= work@.len(),
                forall|t: int|
                    0 <= t < j ==> route_before(
                        view_routes(work@)[m as int],
                        view_routes(work@)[t],
                    ),
            decreases work@.len() - j,
        {
            let better = work[j].count > work[m].count || (work[j].count == work[m].count
                && (work[j].origin < work[m].origin || (work[j].origin == work[m].origin
                && work[j].dest <= work[m].dest)));
            if better {
                m = j;
            }
            j = j + 1;
        }
        let ghost old_work = work@;
        let ghost old_out = out@;
        let x = work.remove(m);
        out.push(x);
        proof {
            broadcast use vstd::seq_lib::group_to_multiset_ensures;

            assert(view_routes(work@) =~= view_routes(old_work).remove(m as int));
            assert(view_routes(out@) =~= view_routes(old_out).push(x@));
            assert(x@ == view_routes(old_work)[m as int]);
            assert(view_routes(out@).to_multiset().add(view_routes(work@).to_multiset())
                =~= view_routes(old_out).to_multiset().add(view_routes(old_work).to_multiset()));
        }
    }
    out
}

impl FlightGraph {
    /// The full route table, ordered by descending count with the ascending
    /// (origin, dest) id pair as the deterministic tie-break.
    pub fn ranked_routes(&self) -> (r: Vec<Route>)
        requires
            self.wf(),
        ensures
            view_routes(r@).to_multiset() == self@.routes.to_multiset(),
            route_sorted(view_routes(r@)),
            forall|k: int| 0 <= k < r@.len() ==> self@.routes.contains(view_routes(r@)[k]),
    {
        let n = self.routes.len();
        let mut copy: Vec<Route> = Vec::new();
        let mut i: usize = 0;
        while i < n
            invariant
                0 <= i <= n,
                n == self.routes@.len(),
                view_routes(copy@) == self@.routes.take(i as int),
            decreases n - i,
        {
            let ghost old_copy = copy@;
            copy.push(
                Route {
                    origin: self.routes[i].origin,
                    dest: self.routes[i].dest,
                    count: self.routes[i].count,
                },
            );
            proof {
                assert(view_routes(copy@) =~= view_routes(old_copy).push(self@.routes[i as int]));
                assert(self@.routes.take(i + 1) =~= self@.routes.take(i as int).push(
                    self@.routes[i as int],
                ));
            }
            i = i + 1;
        }
        proof {
            assert(self@.routes.take(n as int) =~= self@.routes);
        }
        let r = sort_routes(copy);
        proof {
            broadcast use vstd::seq_lib::group_to_multiset_ensures;

            assert forall|k: int| 0 <= k < r@.len() implies self@.routes.contains(
                view_routes(r@)[k],
            ) by {
                assert(view_routes(r@).to_multiset().count(view_routes(r@)[k]) > 0);
            }
        }
        r
    }

    /// Resolve the first `k` routes of an ordered table to display codes.
    /// Both endpoints of every route in the table must be known airports,
    /// which holds of every table drawn from a well-formed graph.
    pub fn resolve_routes(&self, routes: &Vec<Route>, k: usize) -> (r: Vec<RouteEntry>)
        requires
            self.wf(),
            forall|j: int|
                0 <= j < routes@.len() ==> has_id(self@.nodes, (#[trigger] routes@[j]).origin)
                    && has_id(self@.nodes, routes@[j].dest),
        ensures
            r@.len() == if k as int <= routes@.len() {
                k as int
            } else {
                routes@.len() as int
            },
            forall|j: int|
                0 <= j < r@.len() ==> {
                    let rt = routes@[j];
                    &&& (#[trigger] r@[j]).count == rt.count
                    &&& r@[j].origin_code@ == self@.nodes[idx_of(self@.nodes, rt.origin)].name
                    &&& r@[j].dest_code@ == self@.nodes[idx_of(self@.nodes, rt.dest)].name
                },
    {
        let n = routes.len();
        let limit = if k <= n {
            k
        } else {
            n
        };
        let mut r: Vec<RouteEntry> = Vec::new();
        let mut j: usize = 0;
        while j < limit
            invariant
                0 <= j <= limit <= n,
                n == routes@.len(),
                self.wf(),
                forall|t: int|
                    0 <= t < routes@.len() ==> has_id(self@.nodes, (#[trigger] routes@[t]).origin)
                        && has_id(self@.nodes, routes@[t].dest),
                r@.len() == j,
                forall|t: int|
                    0 <= t < j ==> {
                        let rt = routes@[t];
                        &&& (#[trigger] r@[t]).count == rt.count
                        &&& r@[t].origin_code@ == self@.nodes[idx_of(self@.nodes, rt.origin)].name
                        &&& r@[t].dest_code@ == self@.nodes[idx_of(self@.nodes, rt.dest)].name
                    },
            decreases limit - j,
        {
            let origin = routes[j].origin;
            let dest = routes[j].dest;
            let oi = match self.find_node(origin) {
                Some(i) => i,
                None => {
                    proof {
                        assert(false);
                    }
                    0
                },
            };
            let di = match self.find_node(dest) {
                Some(i) => i,
                None => {
                    proof {
                        assert(false);
                    }
                    0
                },
            };
            proof {
                lemma_idx_of_unique(self@.nodes, origin, oi as int);
                lemma_idx_of_unique(self@.nodes, dest, di as int);
            }
            r.push(
                RouteEntry {
                    origin_code: self.nodes[oi].name.clone(),
                    dest_code: self.nodes[di].name.clone(),
                    count: routes[j].count,
                },
            );
            j = j + 1;
        }
        r
    }
}

impl FlightGraph {
    /// The top `k` routes by frequency: the first `k` lines of the ordered
    /// route table, resolved to display codes.
    pub fn top_routes(&self, k: usize) -> (r: Vec<RouteEntry>)
        requires
            self.wf(),
        ensures
            exists|sorted: Seq<RouteV>|
                {
                    &&& #[trigger] sorted.to_multiset() == self@.routes.to_multiset()
                    &&& route_sorted(sorted)
                    &&& r@.len() == (if k as int <= sorted.len() {
                        k as int
                    } else {
                        sorted.len() as int
                    })
                    &&& (forall|j: int|
                        0 <= j < r@.len() ==> (#[trigger] r@[j]).count == sorted[j].count
                            && r@[j].origin_code@ == self@.nodes[idx_of(
                            self@.nodes,
                            sorted[j].origin,
                        )].name && r@[j].dest_code@ == self@.nodes[idx_of(
                            self@.nodes,
                            sorted[j].dest,
                        )].name)
                },
    {
        let sorted = self.ranked_routes();
        proof {
            assert forall|j: int| 0 <= j < sorted@.len() implies has_id(
                self@.nodes,
                (#[trigger] sorted@[j]).origin,
            ) && has_id(self@.nodes, sorted@[j].dest) by {
                assert(self@.routes.contains(view_routes(sorted@)[j]));
                let w = choose|w: int|
                    0 <= w < self@.routes.len() && self@.routes[w] == view_routes(sorted@)[j];
                assert(has_id(self@.nodes, self@.routes[w].origin));
                assert(sorted@[j].origin == view_routes(sorted@)[j].origin);
                assert(sorted@[j].dest == view_routes(sorted@)[j].dest);
            }
        }
        let r = self.resolve_routes(&sorted, k);
        proof {
            let sv = view_routes(sorted@);
            assert(sv.to_multiset() == self@.routes.to_multiset());
            assert forall|j: int| 0 <= j < r@.len() implies (#[trigger] r@[j]).count == sv[j].count
                && r@[j].origin_code@ == self@.nodes[idx_of(self@.nodes, sv[j].origin)].name
                && r@[j].dest_code@ == self@.nodes[idx_of(self@.nodes, sv[j].dest)].name by {
                assert(sorted@[j].count == sv[j].count);
            }
        }
        r
    }
}

/// The error of the anchor queries: a configured anchor airport id that the
/// built graph does not contain.
#[derive(Clone, Copy, Debug, PartialEq, Eq, Structural)]
pub enum RankError {
    MissingAnchor,
}

/// One line of a destination-city tally.
pub struct CityCount {
    pub city: String,
    pub count: usize,
}

/// Model of one tally line.
pub ghost struct CityCountV {
    pub city: Seq<char>,
    pub count: nat,
}

impl View for CityCount {
    type V = CityCountV;

    open spec fn view(&self) -> CityCountV {
        CityCountV { city: self.city@, count: self.count as nat }
    }
}

pub open spec fn cities_view(s: Seq<CityCount>) -> Seq<CityCountV> {
    s.map_values(|c: CityCount| c@)
}

/// The city of the airport keyed by `d`.
pub open spec fn city_of(nodes: Seq<AirportV>, d: u32) -> Seq<char> {
    nodes[idx_of(nodes, d)].city
}

/// How many ids in `dests` resolve to an airport in city `c`.
pub open spec fn count_city(nodes: Seq<AirportV>, dests: Seq<u32>, c: Seq<char>) -> nat
    decreases dests.len(),
{
    if dests.len() == 0 {
        0
    } else {
        count_city(nodes, dests.drop_last(), c) + (if city_of(nodes, dests.last()) == c {
            1nat
        } else {
            0nat
        })
    }
}

pub open spec fn has_city(t: Seq<CityCountV>, c: Seq<char>) -> bool {
    exists|i: int| 0 <= i < t.len() && t[i].city == c
}

/// A correct tally of the cities of `dests`: one line per distinct city, each
/// with the number of destination ids sharing it.
pub open spec fn tally_ok(nodes: Seq<AirportV>, dests: Seq<u32>, t: Seq<CityCountV>) -> bool {
    &&& (forall|i: int|
        0 <= i < t.len() ==> (#[trigger] t[i]).count == count_city(nodes, dests, t[i].city))
    &&& (forall|i: int, j: int| 0 <= i < j < t.len() ==> t[i].city != t[j].city)
    &&& (forall|k: int| 0 <= k < dests.len() ==> has_city(t, city_of(nodes, #[trigger] dests[k])))
    &&& (forall|i: int|
        0 <= i < t.len() ==> exists|k: int|
            0 <= k < dests.len() && city_of(nodes, dests[k]) == (#[trigger] t[i]).city)
}

pub open spec fn count_sorted(s: Seq<CityCountV>) -> bool {
    forall|i: int, j: int| 0 <= i < j < s.len() ==> s[i].count >= s[j].count
}

proof fn lemma_count_city_le_len(nodes: Seq<AirportV>, dests: Seq<u32>, c: Seq<char>)
    ensures
        count_city(nodes, dests, c) <= dests.len(),
    decreases dests.len(),
{
    if dests.len() > 0 {
        lemma_count_city_le_len(nodes, dests.drop_last(), c);
    }
}

proof fn lemma_count_city_pos(nodes: Seq<AirportV>, dests: Seq<u32>, c: Seq<char>)
    requires
        count_city(nodes, dests, c) > 0,
    ensures
        exists|k: int| 0 <= k < dests.len() && city_of(nodes, #[trigger] dests[k]) == c,
    decreases dests.len(),
{
    if dests.len() > 0 {
        if city_of(nodes, dests.last()) == c {
            assert(city_of(nodes, dests[dests.len() - 1]) == c);
        } else {
            lemma_count_city_pos(nodes, dests.drop_last(), c);
            let k = choose|k: int|
                0 <= k < dests.drop_last().len() && city_of(nodes, dests.drop_last()[k]) == c;
            assert(city_of(nodes, dests[k]) == c);
        }
    }
}

proof fn lemma_tally_increment(
    nodes: Seq<AirportV>,
    prefix: Seq<u32>,
    d: u32,
    t: Seq<CityCountV>,
    ti: int,
)
    requires
        tally_ok(nodes, prefix, t),
        0 <= ti < t.len(),
        t[ti].city == city_of(nodes, d),
    ensures
        tally_ok(
            nodes,
            prefix.push(d),
            t.update(ti, CityCountV { city: t[ti].city, count: t[ti].count + 1 }),
        ),
{
    let next = prefix.push(d);
    let new_t = t.update(ti, CityCountV { city: t[ti].city, count: t[ti].count + 1 });
    assert(next.drop_last() =~= prefix);
    assert(next.last() == d);
    assert forall|i: int| 0 <= i < new_t.len() implies (#[trigger] new_t[i]).count == count_city(
        nodes,
        next,
        new_t[i].city,
    ) by {
        assert(count_city(nodes, next, new_t[i].city) == count_city(nodes, prefix, new_t[i].city)
            + (if city_of(nodes, d) == new_t[i].city {
            1nat
        } else {
            0nat
        }));
        if i != ti {
            assert(t[i].city != t[ti].city);
        }
    }
    assert forall|k: int| 0 <= k < next.len() implies has_city(
        new_t,
        city_of(nodes, #[trigger] next[k]),
    ) by {
        if k < prefix.len() {
            assert(next[k] == prefix[k]);
            assert(has_city(t, city_of(nodes, prefix[k])));
            let w = choose|w: int| 0 <= w < t.len() && t[w].city == city_of(nodes, prefix[k]);
            assert(new_t[w].city == t[w].city);
        } else {
            assert(next[k] == d);
            assert(new_t[ti].city == city_of(nodes, d));
        }
    }
    assert forall|i: int| 0 <= i < new_t.len() implies exists|k: int|
        0 <= k < next.len() && city_of(nodes, next[k]) == (#[trigger] new_t[i]).city by {
        let w = choose|k: int| 0 <= k < prefix.len() && city_of(nodes, prefix[k]) == t[i].city;
        assert(city_of(nodes, next[w]) == new_t[i].city);
    }
}

proof fn lemma_tally_new_city(nodes: Seq<AirportV>, prefix: Seq<u32>, d: u32, t: Seq<CityCountV>)
    requires
        tally_ok(nodes, prefix, t),
        !has_city(t, city_of(nodes, d)),
    ensures
        tally_ok(
            nodes,
            prefix.push(d),
            t.push(CityCountV { city: city_of(nodes, d), count: 1 }),
        ),
{
    let next = prefix.push(d);
    let new_t = t.push(CityCountV { city: city_of(nodes, d), count: 1 });
    assert(next.drop_last() =~= prefix);
    assert(next.last() == d);
    if count_city(nodes, prefix, city_of(nodes, d)) > 0 {
        lemma_count_city_pos(nodes, prefix, city_of(nodes, d));
        let k = choose|k: int|
            0 <= k < prefix.len() && city_of(nodes, #[trigger] prefix[k]) == city_of(nodes, d);
        assert(has_city(t, city_of(nodes, prefix[k])));
        assert(false);
    }
    assert forall|i: int| 0 <= i < new_t.len() implies (#[trigger] new_t[i]).count == count_city(
        nodes,
        next,
        new_t[i].city,
    ) by {
        assert(count_city(nodes, next, new_t[i].city) == count_city(nodes, prefix, new_t[i].city)
            + (if city_of(nodes, d) == new_t[i].city {
            1nat
        } else {
            0nat
        }));
        if i < t.len() {
            assert(new_t[i] == t[i]);
            assert(t[i].city != city_of(nodes, d));
        } else {
            assert(new_t[i].city == city_of(nodes, d));
        }
    }
    assert forall|i: int, j: int| 0 <= i < j < new_t.len() implies new_t[i].city
        != new_t[j].city by {
        if j < t.len() {
        } else {
            assert(new_t[j].city == city_of(nodes, d));
            assert(t[i].city != city_of(nodes, d));
        }
    }
    assert forall|k: int| 0 <= k < next.len() implies has_city(
        new_t,
        city_of(nodes, #[trigger] next[k]),
    ) by {
        if k < prefix.len() {
            assert(next[k] == prefix[k]);
            assert(has_city(t, city_of(nodes, prefix[k])));
            let w = choose|w: int| 0 <= w < t.len() && t[w].city == city_of(nodes, prefix[k]);
            assert(new_t[w].city == t[w].city);
        } else {
            assert(new_t[t.len() as int].city == city_of(nodes, d));
        }
    }
    assert forall|i: int| 0 <= i < new_t.len() implies exists|k: int|
        0 <= k < next.len() && city_of(nodes, next[k]) == (#[trigger] new_t[i]).city by {
        if i < t.len() {
            let w = choose|k: int| 0 <= k < prefix.len() && city_of(nodes, prefix[k]) == t[i].city;
            assert(city_of(nodes, next[w]) == new_t[i].city);
        } else {
            assert(city_of(nodes, next[next.len() - 1]) == new_t[i].city);
        }
    }
}

/// The tally line whose city is `city`, if the tally has one.
fn find_city(acc: &Vec<CityCount>, city: &String) -> (r: Option<usize>)
    ensures
        match r {
            Some(t) => t < acc@.len() && cities_view(acc@)[t as int].city == city@,
            None => forall|t: int| 0 <= t < acc@.len() ==> cities_view(acc@)[t].city != city@,
        },
{
    let n = acc.len();
    let mut t: usize = 0;
    while t < n
        invariant
            0 <= t <= n,
            n == acc@.len(),
            forall|u: int| 0 <= u < t ==> cities_view(acc@)[u].city != city@,
        decreases n - t,
    {
        if acc[t].city == *city {
            return Some(t);
        }
        t = t + 1;
    }
    None
}

/// Sort tally lines by descending count; ties keep no particular order.
fn sort_cities(v: Vec<CityCount>) -> (r: Vec<CityCount>)
    ensures
        cities_view(r@).to_multiset() == cities_view(v@).to_multiset(),
        count_sorted(cities_view(r@)),
{
    let mut work = v;
    let mut out: Vec<CityCount> = Vec::new();
    proof {
        broadcast use vstd::seq_lib::group_to_multiset_ensures;

        assert(cities_view(out@) =~= Seq::<CityCountV>::empty());
        assert(cities_view(out@).to_multiset().add(cities_view(work@).to_multiset())
            =~= cities_view(v@).to_multiset());
    }
    while work.len() > 0
        invariant
            cities_view(out@).to_multiset().add(cities_view(work@).to_multiset())
                == cities_view(v@).to_multiset(),
            count_sorted(cities_view(out@)),
            forall|a: int, b: int|
                0 <= a < out@.len() && 0 <= b < work@.len() ==> cities_view(out@)[a].count
                    >= cities_view(work@)[b].count,
        decreases work.len(),
    {
        let mut m: usize = 0;
        let mut j: usize = 1;
        while j < work.len()
            invariant
                0 <= m < j <= work@.len(),
                forall|t: int|
                    0 <= t < j ==> cities_view(work@)[m as int].count >= cities_view(work@)[t].count,
            decreases work@.len() - j,
        {
            if work[j].count > work[m].count {
                m = j;
            }
            j = j + 1;
        }
        let ghost old_work = work@;
        let ghost old_out = out@;
        let x = work.remove(m);
        out.push(x);
        proof {
            broadcast use vstd::seq_lib::group_to_multiset_ensures;

            assert(cities_view(work@) =~= cities_view(old_work).remove(m as int));
            assert(cities_view(out@) =~= cities_view(old_out).push(x@));
            assert(x@ == cities_view(old_work)[m as int]);
            assert(cities_view(out@).to_multiset().add(cities_view(work@).to_multiset())
                =~= cities_view(old_out).to_multiset().add(cities_view(old_work).to_multiset()));
        }
    }
    out
}

impl FlightGraph {
    /// The full destination-city tally of one anchor airport, ordered by
    /// descending count: one line per distinct city among the anchor's
    /// distinct destinations, counting destination airports, not flights.
    /// An anchor id the graph does not contain is the fatal lookup error.
    #[verifier::rlimit(60)]
    pub fn top_cities_for(&self, anchor_id: u32) -> (r: Result<Vec<CityCount>, RankError>)
        requires
            self.wf(),
        ensures
            r is Ok <==> has_id(self@.nodes, anchor_id),
            r is Ok ==> ({
                let dests = self@.nodes[idx_of(self@.nodes, anchor_id)].destinations;
                let t = cities_view(r->Ok_0@);
                &&& tally_ok(self@.nodes, dests, t)
                &&& count_sorted(t)
            }),
            r is Err ==> r->Err_0 == RankError::MissingAnchor,
    {
        let ai = match self.find_node(anchor_id) {
            Some(i) => i,
            None => {
                return Err(RankError::MissingAnchor);
            },
        };
        proof {
            lemma_idx_of_unique(self@.nodes, anchor_id, ai as int);
        }
        let ghost nodes = self@.nodes;
        let ghost dests = nodes[ai as int].destinations;
        let nd = self.nodes[ai].destinations.len();
        let mut acc: Vec<CityCount> = Vec::new();
        let mut j: usize = 0;
        proof {
            assert(dests.take(0) =~= Seq::<u32>::empty());
            assert(cities_view(acc@) =~= Seq::<CityCountV>::empty());
        }
        while j < nd
            invariant
                0 <= j <= nd,
                self.wf(),
                ai < self.nodes@.len(),
                nodes == self@.nodes,
                dests == nodes[ai as int].destinations,
                nd == dests.len(),
                tally_ok(nodes, dests.take(j as int), cities_view(acc@)),
            decreases nd - j,
        {
            let d = self.nodes[ai].destinations[j];
            proof {
                assert(d == dests[j as int]);
                assert(has_id(nodes, d));
            }
            let di = match self.find_node(d) {
                Some(i) => i,
                None => {
                    proof {
                        assert(false);
                    }
                    0
                },
            };
            proof {
                lemma_idx_of_unique(nodes, d, di as int);
            }
            let ghost prefix = dests.take(j as int);
            let ghost next = dests.take(j + 1);
            proof {
                assert(next =~= prefix.push(d));
                assert(city_of(nodes, d) == self.nodes@[di as int]@.city);
            }
            match find_city(&acc, &self.nodes[di].city) {
                Some(t) => {
                    let ghost old_acc = cities_view(acc@);
                    proof {
                        lemma_count_city_le_len(nodes, prefix, old_acc[t as int].city);
                    }
                    let mut e = acc.remove(t);
                    e.count = e.count + 1;
                    acc.insert(t, e);
                    proof {
                        lemma_tally_increment(nodes, prefix, d, old_acc, t as int);
                        assert(cities_view(acc@) =~= old_acc.update(
                            t as int,
                            CityCountV {
                                city: old_acc[t as int].city,
                                count: (old_acc[t as int].count + 1) as nat,
                            },
                        ));
                        assert(tally_ok(nodes, next, cities_view(acc@)));
                    }
                },
                None => {
                    let ghost old_acc = cities_view(acc@);
                    acc.push(CityCount { city: self.nodes[di].city.clone(), count: 1 });
                    proof {
                        lemma_tally_new_city(nodes, prefix, d, old_acc);
                        assert(cities_view(acc@) =~= old_acc.push(
                            CityCountV { city: city_of(nodes, d), count: 1 },
                        ));
                        assert(tally_ok(nodes, next, cities_view(acc@)));
                    }
                },
            }
            j = j + 1;
        }
        proof {
            assert(dests.take(nd as int) =~= dests);
        }
        let ghost tv = cities_view(acc@);
        let sorted = sort_cities(acc);
        proof {
            broadcast use vstd::seq_lib::group_to_multiset_ensures;

            let sv = cities_view(sorted@);
            assert forall|i: int| 0 <= i < sv.len() implies (#[trigger] sv[i]).count == count_city(
                nodes,
                dests,
                sv[i].city,
            ) && (exists|k: int|
                0 <= k < dests.len() && city_of(nodes, dests[k]) == sv[i].city) by {
                assert(sv.to_multiset().count(sv[i]) > 0);
                assert(tv.contains(sv[i]));
                let t = choose|t: int| 0 <= t < tv.len() && tv[t] == sv[i];
                assert(tv[t].count == count_city(nodes, dests, tv[t].city));
            }
            assert forall|k: int| 0 <= k < dests.len() implies has_city(
                sv,
                city_of(nodes, #[trigger] dests[k]),
            ) by {
                assert(has_city(tv, city_of(nodes, dests[k])));
                let i = choose|i: int|
                    0 <= i < tv.len() && tv[i].city == city_of(nodes, dests[k]);
                assert(tv.to_multiset().count(tv[i]) > 0);
                assert(sv.contains(tv[i]));
                let s = choose|s: int| 0 <= s < sv.len() && sv[s] == tv[i];
                assert(sv[s].city == city_of(nodes, dests[k]));
            }
            assert forall|i: int, j2: int| 0 <= i < j2 < tv.len() implies tv[i] != tv[j2] by {
                assert(tv[i].city != tv[j2].city);
            }
            tv.lemma_multiset_has_no_duplicates();
            sv.lemma_multiset_has_no_duplicates_conv();
            assert forall|i: int, j2: int| 0 <= i < j2 < sv.len() implies sv[i].city
                != sv[j2].city by {
                if sv[i].city == sv[j2].city {
                    assert(sv[i].count == count_city(nodes, dests, sv[i].city));
                    assert(sv[j2].count == count_city(nodes, dests, sv[j2].city));
                    assert(sv[i] == sv[j2]);
                }
            }
            assert(tally_ok(nodes, dests, sv));
        }
        Ok(sorted)
    }

    /// Fail-fast anchor report: one section per configured anchor, each with
    /// the anchor's display label, its city, and the top `3` lines of its
    /// destination-city tally. A single missing anchor id aborts the whole
    /// query.
    pub fn anchor_sections(&self, anchors: &Vec<Anchor>) -> (r: Result<
        Vec<AnchorSection>,
        RankError,
    >)
        requires
            self.wf(),
        ensures
            r is Ok <==> (forall|i: int|
                0 <= i < anchors@.len() ==> has_id(self@.nodes, (#[trigger] anchors@[i]).id)),
            r is Ok ==> ({
                let secs = r->Ok_0;
                &&& secs@.len() == anchors@.len()
                &&& (forall|i: int|
                    0 <= i < secs@.len() ==> section_ok(
                        self@.nodes,
                        anchors@[i].id,
                        anchors@[i].label@,
                        #[trigger] secs@[i],
                    ))
            }),
            r is Err ==> r->Err_0 == RankError::MissingAnchor,
    {
        let n = anchors.len();
        let mut secs: Vec<AnchorSection> = Vec::new();
        let mut i: usize = 0;
        while i < n
            invariant
                0 <= i <= n,
                n == anchors@.len(),
                self.wf(),
                secs@.len() == i,
                forall|t: int| 0 <= t < i ==> has_id(self@.nodes, (#[trigger] anchors@[t]).id),
                forall|t: int|
                    0 <= t < i ==> section_ok(
                        self@.nodes,
                        anchors@[t].id,
                        anchors@[t].label@,
                        #[trigger] secs@[t],
                    ),
            decreases n - i,
        {
            let id = anchors[i].id;
            let tally = match self.top_cities_for(id) {
                Ok(t) => t,
                Err(e) => {
                    proof {
                        assert(!has_id(self@.nodes, anchors@[i as int].id));
                    }
                    return Err(e);
                },
            };
            let ai = match self.find_node(id) {
                Some(x) => x,
                None => {
                    proof {
                        assert(false);
                    }
                    0
                },
            };
            proof {
                lemma_idx_of_unique(self@.nodes, id, ai as int);
            }
            let ghost full = cities_view(tally@);
            let top = take_top(tally, 3);
            let ghost old_secs = secs@;
            secs.push(
                AnchorSection {
                    label: anchors[i].label.clone(),
                    city: self.nodes[ai].city.clone(),
                    top,
                },
            );
            proof {
                let s = secs@[i as int];
                assert(cities_view(s.top@) =~= full.take(
                    if full.len() <= 3 {
                        full.len() as int
                    } else {
                        3
                    },
                ));
                assert(section_ok(self@.nodes, anchors@[i as int].id, anchors@[i as int].label@, s));
                assert(forall|t: int| 0 <= t < i ==> secs@[t] == old_secs[t]);
            }
            i = i + 1;
        }
        Ok(secs)
    }
}

/// One configured anchor airport: a display label and the airport id it
/// stands for.
pub struct Anchor {
    pub label: String,
    pub id: u32,
}

/// The anchor's report section: its label and city, and the top lines of its
/// destination-city tally.
pub struct AnchorSection {
    pub label: String,
    pub city: String,
    pub top: Vec<CityCount>,
}

/// What a correct anchor section holds: the label as configured, the city of
/// the anchor airport, and the first `3` lines of some ordered, correct tally
/// of the anchor's destination cities.
pub open spec fn section_ok(
    nodes: Seq<AirportV>,
    anchor_id: u32,
    label: Seq<char>,
    s: AnchorSection,
) -> bool {
    &&& s.label@ == label
    &&& has_id(nodes, anchor_id)
    &&& s.city@ == nodes[idx_of(nodes, anchor_id)].city
    &&& exists|full: Seq<CityCountV>|
        {
            &&& #[trigger] tally_ok(nodes, nodes[idx_of(nodes, anchor_id)].destinations, full)
            &&& count_sorted(full)
            &&& cities_view(s.top@) == full.take(
                if full.len() <= 3 {
                    full.len() as int
                } else {
                    3
                },
            )
        }
}

/// The first `k` lines of an ordered tally — with fewer than `k` lines, all
/// of them.
pub fn take_top(v: Vec<CityCount>, k: usize) -> (r: Vec<CityCount>)
    ensures
        r@ == v@.take(
            if k as int <= v@.len() {
                k as int
            } else {
                v@.len() as int
            },
        ),
{
    let mut r = v;
    if k < r.len() {
        r.truncate(k);
        proof {
            assert(r@ =~= v@.take(k as int));
        }
    } else {
        proof {
            assert(r@ =~= v@.take(v@.len() as int));
        }
    }
    r
}

} // verus!
