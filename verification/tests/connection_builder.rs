use trip_atlas::connections::{build_connections, AllConnections};
use trip_atlas::gtfs::{GtfsData, GtfsStop, GtfsStopTime, GtfsTrip};

fn stop(id: &str, parent: Option<&str>) -> GtfsStop {
    GtfsStop {
        id: id.to_string(),
        code: None,
        name: Some(format!("{} station", id)),
        parent_station_id: parent.map(|p| p.to_string()),
        latitude_bits: None,
        longitude_bits: None,
    }
}

fn stop_time(trip: &str, stop: &str, seq: u16, arr: Option<u32>, dep: Option<u32>) -> GtfsStopTime {
    GtfsStopTime {
        trip_id: trip.to_string(),
        arrival_time: arr,
        departure_time: dep,
        stop_id: stop.to_string(),
        stop_sequence: seq,
    }
}

fn trip(id: &str) -> GtfsTrip {
    GtfsTrip {
        id: id.to_string(),
        service_id: "svc".to_string(),
        route_id: "r".to_string(),
        short_name: None,
    }
}

fn feed(stops: Vec<GtfsStop>, stop_times: Vec<GtfsStopTime>, trips: Vec<GtfsTrip>) -> GtfsData {
    GtfsData {
        agencies: vec![],
        calendars: vec![],
        calendar_dates: vec![],
        routes: vec![],
        stops,
        stop_times,
        trips,
    }
}

fn edges_of(all: &AllConnections, s: usize) -> Vec<(u32, u32)> {
    let mut v: Vec<(u32, u32)> = all.stations[s]
        .connections
        .iter()
        .map(|c| (c.to_station_i, c.duration))
        .collect();
    v.sort();
    v
}

#[test]
fn single_trip_three_stops() {
    // trip T: (A, seq 1, dep 100), (B, seq 2, arr 160 dep 165), (C, seq 3, arr 220)
    let data = feed(
        vec![stop("A", None), stop("B", None), stop("C", None)],
        vec![
            stop_time("T", "A", 1, None, Some(100)),
            stop_time("T", "B", 2, Some(160), Some(165)),
            stop_time("T", "C", 3, Some(220), None),
        ],
        vec![trip("T")],
    );
    let all = build_connections(&data);
    assert_eq!(all.stations.len(), 3);
    assert_eq!(all.stations[0].main_stop_i, 0);
    assert_eq!(all.stations[1].main_stop_i, 1);
    assert_eq!(all.stations[2].main_stop_i, 2);
    assert_eq!(edges_of(&all, 0), vec![(1, 60)]);
    assert_eq!(edges_of(&all, 1), vec![(2, 55)]);
    assert_eq!(edges_of(&all, 2), vec![]);
}

#[test]
fn parent_station_aliasing() {
    // A1 is a platform of A; the edge goes from station A
    let data = feed(
        vec![stop("A", None), stop("A1", Some("A")), stop("B", None)],
        vec![
            stop_time("T", "A1", 1, None, Some(0)),
            stop_time("T", "B", 2, Some(30), None),
        ],
        vec![trip("T")],
    );
    let all = build_connections(&data);
    assert_eq!(all.stations.len(), 2);
    assert_eq!(all.stations[0].main_stop_i, 0);
    assert_eq!(all.stations[1].main_stop_i, 2);
    assert_eq!(edges_of(&all, 0), vec![(1, 30)]);
}

#[test]
fn minimum_across_trips() {
    let data = feed(
        vec![stop("A", None), stop("B", None)],
        vec![
            stop_time("T1", "A", 1, None, Some(0)),
            stop_time("T1", "B", 2, Some(100), None),
            stop_time("T2", "A", 1, None, Some(0)),
            stop_time("T2", "B", 2, Some(80), None),
        ],
        vec![trip("T1"), trip("T2")],
    );
    let all = build_connections(&data);
    assert_eq!(edges_of(&all, 0), vec![(1, 80)]);
}

#[test]
fn sorts_by_stop_sequence() {
    // stop-times arrive out of order; the builder orders them by sequence
    let data = feed(
        vec![stop("A", None), stop("B", None), stop("C", None)],
        vec![
            stop_time("T", "C", 3, Some(220), None),
            stop_time("T", "A", 1, None, Some(100)),
            stop_time("T", "B", 2, Some(160), Some(165)),
        ],
        vec![trip("T")],
    );
    let all = build_connections(&data);
    assert_eq!(edges_of(&all, 0), vec![(1, 60)]);
    assert_eq!(edges_of(&all, 1), vec![(2, 55)]);
}

#[test]
fn non_positive_durations_are_dropped() {
    let data = feed(
        vec![stop("A", None), stop("B", None)],
        vec![
            // arrival before departure: negative traversal, dropped
            stop_time("T1", "A", 1, None, Some(100)),
            stop_time("T1", "B", 2, Some(40), None),
            // zero traversal, dropped too
            stop_time("T2", "A", 1, None, Some(50)),
            stop_time("T2", "B", 2, Some(50), None),
        ],
        vec![trip("T1"), trip("T2")],
    );
    let all = build_connections(&data);
    assert_eq!(edges_of(&all, 0), vec![]);
}

#[test]
fn positive_observation_survives_invalid_ones() {
    let data = feed(
        vec![stop("A", None), stop("B", None)],
        vec![
            stop_time("T1", "A", 1, None, Some(100)),
            stop_time("T1", "B", 2, Some(40), None),
            stop_time("T2", "A", 1, None, Some(0)),
            stop_time("T2", "B", 2, Some(70), None),
        ],
        vec![trip("T1"), trip("T2")],
    );
    let all = build_connections(&data);
    assert_eq!(edges_of(&all, 0), vec![(1, 70)]);
}

#[test]
fn missing_times_and_unknown_stops_are_skipped() {
    let data = feed(
        vec![stop("A", None), stop("B", None), stop("X1", Some("GHOST"))],
        vec![
            // departure missing on the first pair
            stop_time("T", "A", 1, None, None),
            stop_time("T", "B", 2, Some(10), Some(20)),
            // X1's parent is unknown, so the pair B -> X1 does not resolve
            stop_time("T", "X1", 3, Some(50), None),
        ],
        vec![trip("T")],
    );
    let all = build_connections(&data);
    // two stations: A and B; X1 aliases nowhere
    assert_eq!(all.stations.len(), 2);
    assert_eq!(edges_of(&all, 0), vec![]);
    assert_eq!(edges_of(&all, 1), vec![]);
}

#[test]
fn no_duplicate_edges_per_pair() {
    let data = feed(
        vec![stop("A", None), stop("B", None)],
        vec![
            stop_time("T1", "A", 1, None, Some(0)),
            stop_time("T1", "B", 2, Some(100), None),
            stop_time("T2", "A", 1, None, Some(0)),
            stop_time("T2", "B", 2, Some(100), None),
        ],
        vec![trip("T1"), trip("T2")],
    );
    let all = build_connections(&data);
    assert_eq!(all.stations[0].connections.len(), 1);
    assert_eq!(edges_of(&all, 0), vec![(1, 100)]);
}
