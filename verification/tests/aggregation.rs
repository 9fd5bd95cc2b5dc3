use airport_rank::builder::build_from_records;
use airport_rank::rank::Anchor;
use airport_rank::records::IngestError;
use airport_rank::records::RawRecord;

fn rec(
    p: &str,
    oid: &str,
    oc: &str,
    ocity: &str,
    did: &str,
    dc: &str,
    dcity: &str,
) -> RawRecord {
    RawRecord {
        passengers: p.to_string(),
        origin_id: oid.to_string(),
        origin_code: oc.to_string(),
        origin_city: ocity.to_string(),
        dest_id: did.to_string(),
        dest_code: dc.to_string(),
        dest_city: dcity.to_string(),
    }
}

#[test]
fn scenario_five_records() {
    let raws = vec![
        rec("114", "14831", "SJC", "San Jose, CA", "12982", "LIH", "Lihue, HI"),
        rec("1990", "14771", "SFO", "San Francisco, CA", "11298", "DFW", "Dallas/Fort Worth, TX"),
        rec("3414", "13930", "ORD", "Chicago, IL", "14908", "SNA", "Santa Ana, CA"),
        rec("1532", "13796", "OAK", "Oakland, CA", "12191", "HOU", "Houston, TX"),
        rec("1761", "14771", "SFO", "San Francisco, CA", "11292", "DEN", "Denver, CO"),
    ];
    let g = build_from_records(&raws).expect("all records parse");
    assert_eq!(g.total_flights, 5);
    assert_eq!(g.total_passengers, 114 + 1990 + 3414 + 1532 + 1761);
    let ranked = g.rank_airports();
    assert_eq!(ranked.len(), 4);
    assert_eq!(ranked[0].id, 14771);
    assert_eq!(ranked[0].name, "SFO");
    assert_eq!(ranked[0].flights, 2);
    assert_eq!(ranked[0].destinations, 2);
    for e in ranked.iter().skip(1) {
        assert_eq!(e.flights, 1);
        assert_eq!(e.destinations, 1);
    }
    // the deterministic tie-break: ascending id among equal flight counts
    assert_eq!(ranked[1].id, 13796);
    assert_eq!(ranked[2].id, 13930);
    assert_eq!(ranked[3].id, 14831);
    let avg = g.total_passengers as f64 / g.total_flights as f64;
    assert!((avg - 1762.20).abs() < 1e-9);
}

#[test]
fn scenario_two_routes_one_origin() {
    let raws = vec![
        rec("100", "13930", "ORD", "Chicago, IL", "14908", "SNA", "Santa Ana, CA"),
        rec("200", "13930", "ORD", "Chicago, IL", "10721", "BOS", "Boston, MA"),
    ];
    let g = build_from_records(&raws).expect("all records parse");
    let ranked = g.rank_airports();
    assert_eq!(ranked.len(), 1);
    assert_eq!(ranked[0].id, 13930);
    assert_eq!(ranked[0].flights, 2);
    assert_eq!(ranked[0].destinations, 2);
    let top = g.top_routes(5);
    assert_eq!(top.len(), 2);
    assert_eq!(top[0].count, 1);
    assert_eq!(top[1].count, 1);
    // equal counts: the smaller (origin, dest) id pair comes first
    assert_eq!(top[0].origin_code, "ORD");
    assert_eq!(top[0].dest_code, "BOS");
    assert_eq!(top[1].dest_code, "SNA");
}

#[test]
fn scenario_repeated_route() {
    let raws = vec![
        rec("10", "14831", "SJC", "San Jose, CA", "12982", "LIH", "Lihue, HI"),
        rec("20", "14831", "SJC", "San Jose, CA", "12982", "LIH", "Lihue, HI"),
        rec("30", "14831", "SJC", "San Jose, CA", "12982", "LIH", "Lihue, HI"),
    ];
    let g = build_from_records(&raws).expect("all records parse");
    let ranked = g.rank_airports();
    assert_eq!(ranked.len(), 1);
    assert_eq!(ranked[0].flights, 3);
    assert_eq!(ranked[0].destinations, 1);
    let top = g.top_routes(5);
    assert_eq!(top.len(), 1);
    assert_eq!(top[0].count, 3);
    assert_eq!(top[0].origin_code, "SJC");
    assert_eq!(top[0].dest_code, "LIH");
}

#[test]
fn scenario_missing_anchor() {
    let raws = vec![
        rec("100", "13930", "ORD", "Chicago, IL", "14908", "SNA", "Santa Ana, CA"),
    ];
    let g = build_from_records(&raws).expect("all records parse");
    let anchors = vec![Anchor { label: "SFO".to_string(), id: 14771 }];
    assert!(g.anchor_sections(&anchors).is_err());
    assert!(g.top_cities_for(14771).is_err());
    // the present airports still rank normally
    assert_eq!(g.rank_airports().len(), 1);
}

#[test]
fn anchor_city_tally_counts_distinct_airports_once() {
    // three destination airports, two of them sharing a city: the shared
    // city tallies 2 (one per distinct airport), however many flights went
    let raws = vec![
        rec("1", "1", "AAA", "Origin City", "2", "BBB", "Twin City"),
        rec("1", "1", "AAA", "Origin City", "3", "CCC", "Twin City"),
        rec("1", "1", "AAA", "Origin City", "4", "DDD", "Lone City"),
        rec("1", "1", "AAA", "Origin City", "2", "BBB", "Twin City"),
    ];
    let g = build_from_records(&raws).expect("all records parse");
    let tally = g.top_cities_for(1).expect("anchor present");
    assert_eq!(tally.len(), 2);
    assert_eq!(tally[0].city, "Twin City");
    assert_eq!(tally[0].count, 2);
    assert_eq!(tally[1].city, "Lone City");
    assert_eq!(tally[1].count, 1);
}

#[test]
fn anchor_sections_report() {
    let raws = vec![
        rec("114", "14831", "SJC", "San Jose, CA", "12982", "LIH", "Lihue, HI"),
        rec("1990", "14771", "SFO", "San Francisco, CA", "11298", "DFW", "Dallas/Fort Worth, TX"),
        rec("1761", "14771", "SFO", "San Francisco, CA", "11292", "DEN", "Denver, CO"),
    ];
    let g = build_from_records(&raws).expect("all records parse");
    let anchors = vec![
        Anchor { label: "SFO".to_string(), id: 14771 },
        Anchor { label: "SJC".to_string(), id: 14831 },
    ];
    let secs = g.anchor_sections(&anchors).expect("both anchors present");
    assert_eq!(secs.len(), 2);
    assert_eq!(secs[0].label, "SFO");
    assert_eq!(secs[0].city, "San Francisco, CA");
    assert_eq!(secs[0].top.len(), 2);
    assert_eq!(secs[1].label, "SJC");
    assert_eq!(secs[1].city, "San Jose, CA");
    assert_eq!(secs[1].top.len(), 1);
    assert_eq!(secs[1].top[0].city, "Lihue, HI");
    assert_eq!(secs[1].top[0].count, 1);
}

#[test]
fn anchor_top_is_capped_at_three() {
    let raws = vec![
        rec("1", "9", "HUB", "Hub City", "10", "AAA", "City A"),
        rec("1", "9", "HUB", "Hub City", "11", "BBB", "City B"),
        rec("1", "9", "HUB", "Hub City", "12", "CCC", "City C"),
        rec("1", "9", "HUB", "Hub City", "13", "DDD", "City D"),
    ];
    let g = build_from_records(&raws).expect("all records parse");
    let tally = g.top_cities_for(9).expect("anchor present");
    assert_eq!(tally.len(), 4);
    let anchors = vec![Anchor { label: "HUB".to_string(), id: 9 }];
    let secs = g.anchor_sections(&anchors).expect("anchor present");
    assert_eq!(secs[0].top.len(), 3);
}

#[test]
fn malformed_id_aborts_ingestion() {
    let raws = vec![
        rec("100", "13930", "ORD", "Chicago, IL", "14908", "SNA", "Santa Ana, CA"),
        rec("100", "not-a-number", "XXX", "Nowhere", "14908", "SNA", "Santa Ana, CA"),
    ];
    let r = build_from_records(&raws);
    assert!(r.is_err());
    assert_eq!(r.err().unwrap(), IngestError::ParseError);
}

#[test]
fn malformed_passengers_count_as_zero() {
    let raws = vec![
        rec("no digits at all", "1", "AAA", "A City", "2", "BBB", "B City"),
        rec("1,234", "1", "AAA", "A City", "2", "BBB", "B City"),
    ];
    let g = build_from_records(&raws).expect("ids parse");
    assert_eq!(g.total_flights, 2);
    assert_eq!(g.total_passengers, 1234);
}

#[test]
fn empty_batch_builds_empty_report() {
    let raws: Vec<RawRecord> = Vec::new();
    let g = build_from_records(&raws).expect("nothing to parse");
    assert_eq!(g.total_flights, 0);
    assert_eq!(g.total_passengers, 0);
    assert_eq!(g.rank_airports().len(), 0);
    assert_eq!(g.top_routes(5).len(), 0);
    assert_eq!(g.airport_count(), 0);
    assert_eq!(g.flight_edge_count(), 0);
}

#[test]
fn graph_structure_mirrors_the_tables() {
    let raws = vec![
        rec("5", "7", "AAA", "A City", "8", "BBB", "B City"),
        rec("5", "8", "BBB", "B City", "7", "AAA", "A City"),
        rec("5", "7", "AAA", "A City", "8", "BBB", "B City"),
    ];
    let g = build_from_records(&raws).expect("all records parse");
    assert_eq!(g.airport_count(), 2);
    assert_eq!(g.flight_edge_count(), 3);
    assert_eq!(g.airport_id_at(0), 7);
    assert_eq!(g.airport_id_at(1), 8);
}

#[test]
fn conservation_laws_on_a_concrete_batch() {
    let raws = vec![
        rec("114", "14831", "SJC", "San Jose, CA", "12982", "LIH", "Lihue, HI"),
        rec("1990", "14771", "SFO", "San Francisco, CA", "11298", "DFW", "Dallas/Fort Worth, TX"),
        rec("1761", "14771", "SFO", "San Francisco, CA", "11292", "DEN", "Denver, CO"),
        rec("50", "12982", "LIH", "Lihue, HI", "14831", "SJC", "San Jose, CA"),
    ];
    let g = build_from_records(&raws).expect("all records parse");
    let flight_sum: usize = g.nodes.iter().map(|a| a.flights).sum();
    let passenger_sum: usize = g.nodes.iter().map(|a| a.passengers).sum();
    let route_sum: usize = g.routes.iter().map(|r| r.count).sum();
    assert_eq!(flight_sum, g.total_flights);
    assert_eq!(flight_sum, raws.len());
    assert_eq!(passenger_sum, g.total_passengers);
    assert_eq!(passenger_sum, 114 + 1990 + 1761 + 50);
    assert_eq!(route_sum, g.total_flights);
    for a in g.nodes.iter() {
        assert!(a.destinations.len() <= a.flights);
    }
    let ranked = g.rank_airports();
    for w in ranked.windows(2) {
        assert!(w[0].flights >= w[1].flights);
    }
}

#[test]
fn first_seen_display_attributes_win() {
    let raws = vec![
        rec("1", "7", "AAA", "First City", "8", "BBB", "B City"),
        rec("1", "7", "ZZZ", "Other City", "8", "BBB", "B City"),
    ];
    let g = build_from_records(&raws).expect("all records parse");
    let ranked = g.rank_airports();
    assert_eq!(ranked[0].name, "AAA");
    assert_eq!(ranked[0].city, "First City");
}
