use trip_atlas::gtfs::{validate_gtfs, GtfsData, GtfsDataError, GtfsStop, GtfsStopTime, GtfsTrip};

fn stop(id: &str) -> GtfsStop {
    GtfsStop {
        id: id.to_string(),
        code: None,
        name: None,
        parent_station_id: None,
        latitude_bits: None,
        longitude_bits: None,
    }
}

fn trip(id: &str) -> GtfsTrip {
    GtfsTrip {
        id: id.to_string(),
        service_id: "svc".to_string(),
        route_id: "r".to_string(),
        short_name: None,
    }
}

fn stop_time(trip: &str, stop: &str) -> GtfsStopTime {
    GtfsStopTime {
        trip_id: trip.to_string(),
        arrival_time: None,
        departure_time: None,
        stop_id: stop.to_string(),
        stop_sequence: 0,
    }
}

fn feed(stops: Vec<GtfsStop>, stop_times: Vec<GtfsStopTime>, trips: Vec<GtfsTrip>) -> GtfsData {
    GtfsData {
        agencies: vec![],
        calendars: vec![],
        calendar_dates: vec![],
        routes: vec![],
        stops,
        stop_times,
        trips,
    }
}

#[test]
fn well_formed_feed_passes() {
    let data = feed(
        vec![stop("A"), stop("B")],
        vec![stop_time("T1", "A"), stop_time("T1", "B"), stop_time("T2", "A")],
        vec![trip("T1"), trip("T2")],
    );
    assert_eq!(validate_gtfs(&data), Ok(()));
}

#[test]
fn empty_feed_passes() {
    let data = feed(vec![], vec![], vec![]);
    assert_eq!(validate_gtfs(&data), Ok(()));
}

#[test]
fn duplicate_stop_id_is_rejected() {
    let data = feed(vec![stop("A"), stop("B"), stop("A")], vec![], vec![trip("T1")]);
    assert_eq!(validate_gtfs(&data), Err(GtfsDataError::DuplicateStopId));
}

#[test]
fn duplicate_trip_id_is_rejected() {
    let data = feed(vec![stop("A")], vec![], vec![trip("T1"), trip("T1")]);
    assert_eq!(validate_gtfs(&data), Err(GtfsDataError::DuplicateTripId));
}

#[test]
fn unknown_trip_reference_is_rejected() {
    let data = feed(vec![stop("A")], vec![stop_time("GHOST", "A")], vec![trip("T1")]);
    assert_eq!(validate_gtfs(&data), Err(GtfsDataError::UnknownTripId));
}

#[test]
fn duplicate_stop_reported_before_unknown_trip() {
    let data = feed(
        vec![stop("A"), stop("A")],
        vec![stop_time("GHOST", "A")],
        vec![trip("T1"), trip("T1")],
    );
    assert_eq!(validate_gtfs(&data), Err(GtfsDataError::DuplicateStopId));
}
