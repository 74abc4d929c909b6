//! The normalized schedule: a closed schema for the tables of a transit feed.
//!
//! Every record owns its strings. Geographic coordinates are carried as the
//! bit patterns of the publisher's 64-bit values; this crate never interprets
//! them, it only stores them and hands them back.

use vstd::prelude::*;

verus! {

/// A boarding point. A stop may name a parent stop; stops with a parent are
/// platforms of the parent's station.
#[derive(Debug, Clone, PartialEq)]
pub struct GtfsStop {
    pub id: String,
    pub code: Option<String>,
    pub name: Option<String>,
    pub parent_station_id: Option<String>,
    /// Bit pattern of the publisher's 64-bit latitude, carried opaquely.
    pub latitude_bits: Option<u64>,
    /// Bit pattern of the publisher's 64-bit longitude, carried opaquely.
    pub longitude_bits: Option<u64>,
}

/// One scheduled visit of a trip at a stop. Times are seconds since the
/// service day's midnight.
#[derive(Debug, Clone, PartialEq)]
pub struct GtfsStopTime {
    pub trip_id: String,
    pub arrival_time: Option<u32>,
    pub departure_time: Option<u32>,
    pub stop_id: String,
    pub stop_sequence: u16,
}

/// One run of a vehicle along a sequence of stops.
#[derive(Debug, Clone, PartialEq)]
pub struct GtfsTrip {
    pub id: String,
    pub service_id: String,
    pub route_id: String,
    pub short_name: Option<String>,
}

/// The mode of a route, with unrecognized codes preserved.
#[derive(Debug, Clone, Copy, PartialEq, Eq)]
pub enum GtfsRouteType {
    Tramway,
    Subway,
    Rail,
    Bus,
    Ferry,
    CableCar,
    Gondola,
    Funicular,
    Coach,
    Air,
    Taxi,
    Other(i16),
}

#[derive(Debug, Clone, PartialEq)]
pub struct GtfsRoute {
    pub id: String,
    pub short_name: Option<String>,
    pub long_name: Option<String>,
    pub route_type: GtfsRouteType,
    pub agency_id: Option<String>,
}

#[derive(Debug, Clone, PartialEq)]
pub struct GtfsAgency {
    pub id: Option<String>,
    pub name: String,
}

/// A weekly service pattern. Dates are kept as printable strings; no date
/// arithmetic happens in this crate.
#[derive(Debug, Clone, PartialEq)]
pub struct GtfsCalendar {
    pub id: String,
    pub monday: bool,
    pub tuesday: bool,
    pub wednesday: bool,
    pub thursday: bool,
    pub friday: bool,
    pub saturday: bool,
    pub sunday: bool,
    pub start_date: String,
    pub end_date: String,
}

#[derive(Debug, Clone, Copy, PartialEq, Eq)]
pub enum GtfsExceptionType {
    Added,
    Deleted,
}

/// A single-day exception to a weekly service pattern.
#[derive(Debug, Clone, PartialEq)]
pub struct GtfsCalendarDate {
    pub service_id: String,
    pub date: String,
    pub exception_type: GtfsExceptionType,
}

/// The whole normalized feed, held in memory.
#[derive(Debug, Clone, PartialEq)]
pub struct GtfsData {
    pub agencies: Vec<GtfsAgency>,
    pub calendars: Vec<GtfsCalendar>,
    pub calendar_dates: Vec<GtfsCalendarDate>,
    pub routes: Vec<GtfsRoute>,
    pub stops: Vec<GtfsStop>,
    pub stop_times: Vec<GtfsStopTime>,
    pub trips: Vec<GtfsTrip>,
}

/// The mathematical value of a stop: every string replaced by its character
/// sequence.
pub struct StopView {
    pub id: Seq<char>,
    pub code: Option<Seq<char>>,
    pub name: Option<Seq<char>>,
    pub parent_station_id: Option<Seq<char>>,
    pub latitude_bits: Option<u64>,
    pub longitude_bits: Option<u64>,
}

pub struct StopTimeView {
    pub trip_id: Seq<char>,
    pub arrival_time: Option<u32>,
    pub departure_time: Option<u32>,
    pub stop_id: Seq<char>,
    pub stop_sequence: u16,
}

pub struct TripView {
    pub id: Seq<char>,
    pub service_id: Seq<char>,
    pub route_id: Seq<char>,
    pub short_name: Option<Seq<char>>,
}

pub struct RouteView {
    pub id: Seq<char>,
    pub short_name: Option<Seq<char>>,
    pub long_name: Option<Seq<char>>,
    pub route_type: GtfsRouteType,
    pub agency_id: Option<Seq<char>>,
}

pub struct AgencyView {
    pub id: Option<Seq<char>>,
    pub name: Seq<char>,
}

pub struct CalendarView {
    pub id: Seq<char>,
    pub monday: bool,
    pub tuesday: bool,
    pub wednesday: bool,
    pub thursday: bool,
    pub friday: bool,
    pub saturday: bool,
    pub sunday: bool,
    pub start_date: Seq<char>,
    pub end_date: Seq<char>,
}

pub struct CalendarDateView {
    pub service_id: Seq<char>,
    pub date: Seq<char>,
    pub exception_type: GtfsExceptionType,
}

pub struct GtfsDataView {
    pub agencies: Seq<AgencyView>,
    pub calendars: Seq<CalendarView>,
    pub calendar_dates: Seq<CalendarDateView>,
    pub routes: Seq<RouteView>,
    pub stops: Seq<StopView>,
    pub stop_times: Seq<StopTimeView>,
    pub trips: Seq<TripView>,
}

/// The view of an optional string: `None`, or the characters.
pub open spec fn opt_str_view(o: Option<String>) -> Option<Seq<char>> {
    match o {
        Option::None => Option::None,
        Option::Some(s) => Option::Some(s@),
    }
}

impl View for GtfsStop {
    type V = StopView;

    open spec fn view(&self) -> StopView {
        StopView {
            id: self.id@,
            code: opt_str_view(self.code),
            name: opt_str_view(self.name),
            parent_station_id: opt_str_view(self.parent_station_id),
            latitude_bits: self.latitude_bits,
            longitude_bits: self.longitude_bits,
        }
    }
}

impl View for GtfsStopTime {
    type V = StopTimeView;

    open spec fn view(&self) -> StopTimeView {
        StopTimeView {
            trip_id: self.trip_id@,
            arrival_time: self.arrival_time,
            departure_time: self.departure_time,
            stop_id: self.stop_id@,
            stop_sequence: self.stop_sequence,
        }
    }
}

impl View for GtfsTrip {
    type V = TripView;

    open spec fn view(&self) -> TripView {
        TripView {
            id: self.id@,
            service_id: self.service_id@,
            route_id: self.route_id@,
            short_name: opt_str_view(self.short_name),
        }
    }
}

impl View for GtfsRoute {
    type V = RouteView;

    open spec fn view(&self) -> RouteView {
        RouteView {
            id: self.id@,
            short_name: opt_str_view(self.short_name),
            long_name: opt_str_view(self.long_name),
            route_type: self.route_type,
            agency_id: opt_str_view(self.agency_id),
        }
    }
}

impl View for GtfsAgency {
    type V = AgencyView;

    open spec fn view(&self) -> AgencyView {
        AgencyView { id: opt_str_view(self.id), name: self.name@ }
    }
}

impl View for GtfsCalendar {
    type V = CalendarView;

    open spec fn view(&self) -> CalendarView {
        CalendarView {
            id: self.id@,
            monday: self.monday,
            tuesday: self.tuesday,
            wednesday: self.wednesday,
            thursday: self.thursday,
            friday: self.friday,
            saturday: self.saturday,
            sunday: self.sunday,
            start_date: self.start_date@,
            end_date: self.end_date@,
        }
    }
}

impl View for GtfsCalendarDate {
    type V = CalendarDateView;

    open spec fn view(&self) -> CalendarDateView {
        CalendarDateView {
            service_id: self.service_id@,
            date: self.date@,
            exception_type: self.exception_type,
        }
    }
}

impl View for GtfsData {
    type V = GtfsDataView;

    open spec fn view(&self) -> GtfsDataView {
        GtfsDataView {
            agencies: self.agencies@.map_values(|a: GtfsAgency| a@),
            calendars: self.calendars@.map_values(|c: GtfsCalendar| c@),
            calendar_dates: self.calendar_dates@.map_values(|c: GtfsCalendarDate| c@),
            routes: self.routes@.map_values(|r: GtfsRoute| r@),
            stops: self.stops@.map_values(|s: GtfsStop| s@),
            stop_times: self.stop_times@.map_values(|s: GtfsStopTime| s@),
            trips: self.trips@.map_values(|t: GtfsTrip| t@),
        }
    }
}

/// The stop table as mathematical values.
pub open spec fn stop_views(stops: Seq<GtfsStop>) -> Seq<StopView> {
    stops.map_values(|s: GtfsStop| s@)
}

/// No two trips share an id.
pub open spec fn trip_ids_unique(trips: Seq<TripView>) -> bool {
    forall|i: int, j: int|
        0 <= i < trips.len() && 0 <= j < trips.len() && i != j ==> trips[i].id != trips[j].id
}

/// No two stops share an id.
pub open spec fn stop_ids_unique(stops: Seq<StopView>) -> bool {
    forall|i: int, j: int|
        0 <= i < stops.len() && 0 <= j < stops.len() && i != j ==> stops[i].id != stops[j].id
}

/// Some trip carries the given id.
pub open spec fn trip_id_known(trips: Seq<TripView>, id: Seq<char>) -> bool {
    exists|i: int| 0 <= i < trips.len() && trips[i].id == id
}

/// Every stop-time names a trip that exists.
pub open spec fn stop_times_resolve(data: GtfsDataView) -> bool {
    forall|i: int|
        0 <= i < data.stop_times.len() ==> trip_id_known(
            data.trips,
            #[trigger] data.stop_times[i].trip_id,
        )
}

/// The referential invariants that the normalizer establishes.
pub open spec fn gtfs_well_formed(data: GtfsDataView) -> bool {
    &&& stop_ids_unique(data.stops)
    &&& trip_ids_unique(data.trips)
    &&& stop_times_resolve(data)
}

/// In a well-formed feed, the trip id of every stop-time belongs to exactly
/// one trip: some index carries it, and any two indices that carry it are the
/// same index.
pub proof fn lemma_stop_time_trip_unique(data: GtfsDataView, i: int)
    requires
        gtfs_well_formed(data),
        0 <= i < data.stop_times.len(),
    ensures
        exists|t: int| 0 <= t < data.trips.len() && data.trips[t].id == data.stop_times[i].trip_id,
        forall|t1: int, t2: int|
            (0 <= t1 < data.trips.len() && 0 <= t2 < data.trips.len()
                && data.trips[t1].id == data.stop_times[i].trip_id
                && data.trips[t2].id == data.stop_times[i].trip_id) ==> t1 == t2,
{
    assert(trip_id_known(data.trips, data.stop_times[i].trip_id));
}

/// Why a feed was rejected by the normalizer.
#[derive(Debug, Clone, Copy, PartialEq, Eq, Structural)]
pub enum GtfsDataError {
    /// Two stops carry the same id.
    DuplicateStopId,
    /// Two trips carry the same id.
    DuplicateTripId,
    /// A stop-time names a trip that no trip record carries.
    UnknownTripId,
}

/// Establishes the referential invariants of the normalized feed: stop ids
/// unique, trip ids unique, every stop-time's trip known. The checks run in
/// this order, and the first broken one names the error.
pub fn validate_gtfs(data: &GtfsData) -> (r: Result<(), GtfsDataError>)
    ensures
        r is Ok <==> gtfs_well_formed(data@),
        r == Err::<(), GtfsDataError>(GtfsDataError::DuplicateStopId) <==> !stop_ids_unique(
            data@.stops,
        ),
        r == Err::<(), GtfsDataError>(GtfsDataError::DuplicateTripId) <==> (stop_ids_unique(
            data@.stops,
        ) && !trip_ids_unique(data@.trips)),
        r == Err::<(), GtfsDataError>(GtfsDataError::UnknownTripId) <==> (stop_ids_unique(
            data@.stops,
        ) && trip_ids_unique(data@.trips) && !stop_times_resolve(data@)),
{
    let mut seen: vstd::hash_map::StringHashMap<u32> = vstd::hash_map::StringHashMap::new();
    let n_stops = data.stops.len();
    let mut i: usize = 0;
    while i < n_stops
        invariant
            i <= n_stops,
            n_stops == data.stops@.len(),
            forall|j1: int, j2: int|
                0 <= j1 < i && 0 <= j2 < i && j1 != j2 ==> data@.stops[j1].id != data@.stops[j2].id,
            forall|j: int| 0 <= j < i ==> seen@.contains_key(#[trigger] data@.stops[j].id),
            forall|k: Seq<char>|
                seen@.contains_key(k) ==> exists|j: int| 0 <= j < i && data@.stops[j].id == k,
        decreases n_stops - i,
    {
        let id = &data.stops[i].id;
        if seen.contains_key(id.as_str()) {
            proof {
                let j = choose|j: int| 0 <= j < i && data@.stops[j].id == id@;
                assert(data@.stops[j].id == data@.stops[i as int].id);
                assert(!stop_ids_unique(data@.stops));
            }
            return Err(GtfsDataError::DuplicateStopId);
        }
        seen.insert(id.clone(), 0);
        proof {
            assert(data@.stops[i as int].id == id@);
        }
        i += 1;
    }
    proof {
        assert(stop_ids_unique(data@.stops));
    }
    let mut trip_ids: vstd::hash_map::StringHashMap<u32> = vstd::hash_map::StringHashMap::new();
    let n_trips = data.trips.len();
    let mut i: usize = 0;
    while i < n_trips
        invariant
            i <= n_trips,
            n_trips == data.trips@.len(),
            stop_ids_unique(data@.stops),
            forall|j1: int, j2: int|
                0 <= j1 < i && 0 <= j2 < i && j1 != j2 ==> data@.trips[j1].id != data@.trips[j2].id,
            forall|j: int| 0 <= j < i ==> trip_ids@.contains_key(#[trigger] data@.trips[j].id),
            forall|k: Seq<char>|
                trip_ids@.contains_key(k) ==> exists|j: int| 0 <= j < i && data@.trips[j].id == k,
        decreases n_trips - i,
    {
        let id = &data.trips[i].id;
        if trip_ids.contains_key(id.as_str()) {
            proof {
                let j = choose|j: int| 0 <= j < i && data@.trips[j].id == id@;
                assert(data@.trips[j].id == data@.trips[i as int].id);
                assert(!trip_ids_unique(data@.trips));
            }
            return Err(GtfsDataError::DuplicateTripId);
        }
        trip_ids.insert(id.clone(), 0);
        proof {
            assert(data@.trips[i as int].id == id@);
        }
        i += 1;
    }
    proof {
        assert(trip_ids_unique(data@.trips));
    }
    let n_stop_times = data.stop_times.len();
    let mut i: usize = 0;
    while i < n_stop_times
        invariant
            i <= n_stop_times,
            n_stop_times == data.stop_times@.len(),
            stop_ids_unique(data@.stops),
            trip_ids_unique(data@.trips),
            forall|k: Seq<char>|
                trip_ids@.contains_key(k) <==> trip_id_known(data@.trips, k),
            forall|j: int|
                0 <= j < i ==> trip_id_known(data@.trips, #[trigger] data@.stop_times[j].trip_id),
        decreases n_stop_times - i,
    {
        let trip_id = &data.stop_times[i].trip_id;
        if !trip_ids.contains_key(trip_id.as_str()) {
            proof {
                assert(data@.stop_times[i as int].trip_id == trip_id@);
                assert(!trip_id_known(data@.trips, data@.stop_times[i as int].trip_id));
                assert(!stop_times_resolve(data@));
            }
            return Err(GtfsDataError::UnknownTripId);
        }
        proof {
            assert(data@.stop_times[i as int].trip_id == trip_id@);
        }
        i += 1;
    }
    proof {
        assert(stop_times_resolve(data@));
    }
    Ok(())
}

} // verus!
