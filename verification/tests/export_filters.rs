use trip_atlas::connections::{AllConnections, ConnectionsFromStation};
use trip_atlas::export::{
    filter_reached_stations, filter_stops_by_name, find_station_indices_by_names, str_contains,
};
use trip_atlas::gtfs::GtfsStop;

fn named_stop(id: &str, name: Option<&str>, parent: Option<&str>) -> GtfsStop {
    GtfsStop {
        id: id.to_string(),
        code: None,
        name: name.map(|n| n.to_string()),
        parent_station_id: parent.map(|p| p.to_string()),
        latitude_bits: None,
        longitude_bits: None,
    }
}

#[test]
fn substring_search() {
    assert!(str_contains("Hennigsdorf Bhf", "Hennigsdorf"));
    assert!(str_contains("S Hennigsdorf", "Hennigsdorf"));
    assert!(str_contains("abc", ""));
    assert!(str_contains("", ""));
    assert!(!str_contains("", "a"));
    assert!(!str_contains("Hennigsdorf", "Heiligensee"));
    assert!(!str_contains("dorf", "Hennigsdorf"));
    assert!(str_contains("Größenwahn über alles", "über"));
    assert!(!str_contains("abab", "abba"));
}

#[test]
fn stop_filter_keeps_matching_parentless_stops() {
    let stops = vec![
        named_stop("A", Some("Hennigsdorf Bhf"), None),
        named_stop("A1", Some("Hennigsdorf Gleis 1"), Some("A")),
        named_stop("B", Some("Heiligensee"), None),
        named_stop("C", None, None),
        named_stop("D", Some("S Hennigsdorf Nord"), None),
    ];
    let r = filter_stops_by_name(&stops, "Hennigsdorf");
    assert_eq!(r, vec![0, 4]);
}

#[test]
fn origin_lookup_by_name() {
    let stops = vec![
        named_stop("A", Some("Alpha"), None),
        named_stop("B", Some("Beta"), None),
        named_stop("C", Some("Gamma"), None),
    ];
    let all = AllConnections {
        stations: vec![
            ConnectionsFromStation { main_stop_i: 0, connections: vec![] },
            ConnectionsFromStation { main_stop_i: 1, connections: vec![] },
            ConnectionsFromStation { main_stop_i: 2, connections: vec![] },
        ],
    };
    let names = vec!["Gamma".to_string(), "Alpha".to_string()];
    let r = find_station_indices_by_names(&all, &stops, &names);
    assert_eq!(r, vec![0, 2]);
}

#[test]
fn origin_lookup_ignores_missing_names_and_bad_indices() {
    let stops = vec![named_stop("A", None, None)];
    let all = AllConnections {
        stations: vec![
            ConnectionsFromStation { main_stop_i: 0, connections: vec![] },
            ConnectionsFromStation { main_stop_i: 7, connections: vec![] },
        ],
    };
    let names = vec!["Alpha".to_string()];
    let r = find_station_indices_by_names(&all, &stops, &names);
    assert_eq!(r, Vec::<u32>::new());
}

#[test]
fn reached_stations_listing() {
    let states = vec![Some(0), None, Some(115), None, Some(60)];
    let r = filter_reached_stations(&states);
    assert_eq!(r, vec![(0, 0), (2, 115), (4, 60)]);
}
