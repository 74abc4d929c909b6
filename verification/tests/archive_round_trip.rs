use trip_atlas::archive::{
    deserialize_connections, deserialize_gtfs, serialize_connections, serialize_gtfs,
    ArchiveError,
};
use trip_atlas::connections::{AllConnections, ConnectionsFromStation, ConnectionToStation};
use trip_atlas::gtfs::{
    GtfsAgency, GtfsCalendar, GtfsCalendarDate, GtfsData, GtfsExceptionType, GtfsRoute,
    GtfsRouteType, GtfsStop, GtfsStopTime, GtfsTrip,
};

fn sample_gtfs() -> GtfsData {
    GtfsData {
        agencies: vec![
            GtfsAgency { id: Some("ag1".to_string()), name: "City Transit".to_string() },
            GtfsAgency { id: None, name: "Land Kreis Bus".to_string() },
        ],
        calendars: vec![GtfsCalendar {
            id: "wk".to_string(),
            monday: true,
            tuesday: true,
            wednesday: false,
            thursday: true,
            friday: true,
            saturday: false,
            sunday: false,
            start_date: "2024-01-01".to_string(),
            end_date: "2024-12-31".to_string(),
        }],
        calendar_dates: vec![
            GtfsCalendarDate {
                service_id: "wk".to_string(),
                date: "2024-05-01".to_string(),
                exception_type: GtfsExceptionType::Deleted,
            },
            GtfsCalendarDate {
                service_id: "wk".to_string(),
                date: "2024-05-02".to_string(),
                exception_type: GtfsExceptionType::Added,
            },
        ],
        routes: vec![
            GtfsRoute {
                id: "r1".to_string(),
                short_name: Some("S25".to_string()),
                long_name: None,
                route_type: GtfsRouteType::Rail,
                agency_id: Some("ag1".to_string()),
            },
            GtfsRoute {
                id: "r2".to_string(),
                short_name: None,
                long_name: Some("Express über die Höfe".to_string()),
                route_type: GtfsRouteType::Other(-7),
                agency_id: None,
            },
        ],
        stops: vec![
            GtfsStop {
                id: "A".to_string(),
                code: Some("001".to_string()),
                name: Some("Alpha Bahnhof".to_string()),
                parent_station_id: None,
                latitude_bits: Some(52.5f64.to_bits()),
                longitude_bits: Some(13.4f64.to_bits()),
            },
            GtfsStop {
                id: "A1".to_string(),
                code: None,
                name: Some("Alpha Gleis 1".to_string()),
                parent_station_id: Some("A".to_string()),
                latitude_bits: None,
                longitude_bits: None,
            },
        ],
        stop_times: vec![GtfsStopTime {
            trip_id: "t1".to_string(),
            arrival_time: Some(100),
            departure_time: Some(120),
            stop_id: "A1".to_string(),
            stop_sequence: 1,
        }],
        trips: vec![GtfsTrip {
            id: "t1".to_string(),
            service_id: "wk".to_string(),
            route_id: "r1".to_string(),
            short_name: None,
        }],
    }
}

fn sample_connections() -> AllConnections {
    AllConnections {
        stations: vec![
            ConnectionsFromStation {
                main_stop_i: 0,
                connections: vec![
                    ConnectionToStation { to_station_i: 1, duration: 60 },
                    ConnectionToStation { to_station_i: 2, duration: 125 },
                ],
            },
            ConnectionsFromStation { main_stop_i: 2, connections: vec![] },
            ConnectionsFromStation {
                main_stop_i: 5,
                connections: vec![ConnectionToStation { to_station_i: 0, duration: 1 }],
            },
        ],
    }
}

#[test]
fn gtfs_round_trip() {
    let data = sample_gtfs();
    let bytes = serialize_gtfs(&data);
    let back = deserialize_gtfs(bytes.as_slice()).expect("round trip must succeed");
    assert_eq!(back, data);
}

#[test]
fn gtfs_empty_round_trip() {
    let data = GtfsData {
        agencies: vec![],
        calendars: vec![],
        calendar_dates: vec![],
        routes: vec![],
        stops: vec![],
        stop_times: vec![],
        trips: vec![],
    };
    let bytes = serialize_gtfs(&data);
    let back = deserialize_gtfs(bytes.as_slice()).expect("round trip must succeed");
    assert_eq!(back, data);
}

#[test]
fn connections_round_trip() {
    let all = sample_connections();
    let bytes = serialize_connections(&all);
    let back = deserialize_connections(bytes.as_slice()).expect("round trip must succeed");
    assert_eq!(back, all);
}

#[test]
fn serialization_is_deterministic() {
    // building the same value twice gives byte-identical archives
    let bytes1 = serialize_gtfs(&sample_gtfs());
    let bytes2 = serialize_gtfs(&sample_gtfs());
    assert_eq!(bytes1, bytes2);
    let cb1 = serialize_connections(&sample_connections());
    let cb2 = serialize_connections(&sample_connections());
    assert_eq!(cb1, cb2);
}

#[test]
fn schema_tags_are_checked() {
    let gtfs_bytes = serialize_gtfs(&sample_gtfs());
    let conn_bytes = serialize_connections(&sample_connections());
    // a connections archive is not a feed archive, and the other way round
    assert_eq!(
        deserialize_gtfs(conn_bytes.as_slice()).unwrap_err(),
        ArchiveError::SchemaMismatch
    );
    assert_eq!(
        deserialize_connections(gtfs_bytes.as_slice()).unwrap_err(),
        ArchiveError::SchemaMismatch
    );
}

#[test]
fn corrupt_bodies_are_rejected() {
    let bytes = serialize_gtfs(&sample_gtfs());
    // truncated behind the header
    let cut = &bytes[..bytes.len() - 1];
    assert_eq!(deserialize_gtfs(cut).unwrap_err(), ArchiveError::Malformed);
    // trailing garbage
    let mut long = bytes.clone();
    long.push(0);
    assert_eq!(deserialize_gtfs(long.as_slice()).unwrap_err(), ArchiveError::Malformed);
    // empty buffer has no header at all
    assert_eq!(deserialize_gtfs(&[]).unwrap_err(), ArchiveError::SchemaMismatch);
}
