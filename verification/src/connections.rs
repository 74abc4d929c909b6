//! The direct-connection graph: one node per station, one edge per ordered
//! pair of stations that appear consecutively in some trip, weighted by the
//! smallest observed traversal time.

use vstd::prelude::*;

use std::collections::HashMap;

use crate::gtfs::{GtfsData, GtfsDataView, GtfsStop, GtfsStopTime, StopTimeView, StopView};

verus! {

/// One outgoing edge: the target station and the traversal time in seconds.
#[derive(Debug, Clone, Copy, PartialEq, Eq, Structural)]
pub struct ConnectionToStation {
    pub to_station_i: u32,
    pub duration: u32,
}

/// A station: the index of its main stop in the normalized stop table, and
/// its outgoing edges.
#[derive(Debug, Clone, PartialEq)]
pub struct ConnectionsFromStation {
    pub main_stop_i: u32,
    pub connections: Vec<ConnectionToStation>,
}

/// The whole graph, indexed by station index.
#[derive(Debug, Clone, PartialEq)]
pub struct AllConnections {
    pub stations: Vec<ConnectionsFromStation>,
}

pub struct StationView {
    pub main_stop_i: u32,
    pub connections: Seq<ConnectionToStation>,
}

pub struct AllConnectionsView {
    pub stations: Seq<StationView>,
}

impl View for ConnectionsFromStation {
    type V = StationView;

    open spec fn view(&self) -> StationView {
        StationView { main_stop_i: self.main_stop_i, connections: self.connections@ }
    }
}

impl View for AllConnections {
    type V = AllConnectionsView;

    open spec fn view(&self) -> AllConnectionsView {
        AllConnectionsView {
            stations: self.stations@.map_values(|s: ConnectionsFromStation| s@),
        }
    }
}

// ---------------------------------------------------------------------------
// Station indexing
// ---------------------------------------------------------------------------

/// How many of the stops are stations, that is, have no parent.
pub open spec fn station_count(stops: Seq<StopView>) -> nat
    decreases stops.len(),
{
    if stops.len() == 0 {
        0
    } else {
        station_count(stops.drop_last()) + (if stops.last().parent_station_id is None {
            1nat
        } else {
            0nat
        })
    }
}

/// The station table: one record per parentless stop, in stop order, holding
/// the stop's index and no edges yet.
pub open spec fn spec_stations(stops: Seq<StopView>) -> Seq<StationView>
    decreases stops.len(),
{
    if stops.len() == 0 {
        Seq::empty()
    } else {
        let rest = spec_stations(stops.drop_last());
        if stops.last().parent_station_id is None {
            rest.push(
                StationView {
                    main_stop_i: (stops.len() - 1) as u32,
                    connections: Seq::empty(),
                },
            )
        } else {
            rest
        }
    }
}

/// After the first pass: each parentless stop's id resolves to its station
/// index.
pub open spec fn pass1_map(stops: Seq<StopView>) -> Map<Seq<char>, u32>
    decreases stops.len(),
{
    if stops.len() == 0 {
        Map::empty()
    } else {
        let m = pass1_map(stops.drop_last());
        if stops.last().parent_station_id is None {
            m.insert(stops.last().id, station_count(stops.drop_last()) as u32)
        } else {
            m
        }
    }
}

/// After the first `i` steps of the second pass: stops with a known parent
/// alias to the parent's station; stops with an unknown parent are left out.
pub open spec fn pass2_map(stops: Seq<StopView>, i: nat) -> Map<Seq<char>, u32>
    decreases i,
{
    if i == 0 || i > stops.len() {
        pass1_map(stops)
    } else {
        let m = pass2_map(stops, (i - 1) as nat);
        match stops[i - 1].parent_station_id {
            Some(p) => {
                if m.contains_key(p) {
                    m.insert(stops[i - 1].id, m[p])
                } else {
                    m
                }
            },
            None => m,
        }
    }
}

/// The map from stop ids to station indices that the builder works with.
pub open spec fn station_index_map(stops: Seq<StopView>) -> Map<Seq<char>, u32> {
    pass2_map(stops, stops.len())
}

pub proof fn lemma_station_count_le(stops: Seq<StopView>)
    ensures
        station_count(stops) <= stops.len(),
        spec_stations(stops).len() == station_count(stops),
    decreases stops.len(),
{
    if stops.len() > 0 {
        lemma_station_count_le(stops.drop_last());
    }
}

/// Every station record points at a parentless stop, and the records appear
/// in stop order with dense indices.
pub proof fn lemma_spec_stations_wf(stops: Seq<StopView>, s: int)
    requires
        stops.len() <= u32::MAX,
        0 <= s < spec_stations(stops).len(),
    ensures
        spec_stations(stops)[s].main_stop_i < stops.len(),
        stops[spec_stations(stops)[s].main_stop_i as int].parent_station_id is None,
        spec_stations(stops)[s].connections == Seq::<ConnectionToStation>::empty(),
    decreases stops.len(),
{
    if stops.len() > 0 {
        let rest = spec_stations(stops.drop_last());
        if s < rest.len() {
            lemma_spec_stations_wf(stops.drop_last(), s);
            let m = rest[s].main_stop_i;
            assert(spec_stations(stops)[s] == rest[s]);
            assert(stops.drop_last()[m as int] == stops[m as int]);
        } else {
            assert(stops.last().parent_station_id is None);
            assert(spec_stations(stops)[s].main_stop_i == stops.len() - 1);
            assert(stops[stops.len() - 1] == stops.last());
        }
    }
}

/// A parentless stop's id resolves to that stop's own station index.
pub proof fn lemma_pass1_contains(stops: Seq<StopView>, k: int)
    requires
        crate::gtfs::stop_ids_unique(stops),
        0 <= k < stops.len(),
        stops[k].parent_station_id is None,
    ensures
        pass1_map(stops).contains_key(stops[k].id),
        pass1_map(stops)[stops[k].id] == station_count(stops.take(k)) as u32,
    decreases stops.len(),
{
    let d = stops.drop_last();
    if k == stops.len() - 1 {
        assert(d =~= stops.take(k));
    } else {
        assert(crate::gtfs::stop_ids_unique(d)) by {
            assert(forall|i: int| 0 <= i < d.len() ==> d[i] == stops[i]);
        }
        lemma_pass1_contains(d, k);
        assert(d.take(k) =~= stops.take(k));
        if stops.last().parent_station_id is None {
            assert(stops.last().id != stops[k].id);
        }
    }
}

/// Every value of the first-pass map is a dense station index.
pub proof fn lemma_pass1_values(stops: Seq<StopView>, id: Seq<char>)
    requires
        pass1_map(stops).contains_key(id),
    ensures
        pass1_map(stops)[id] < station_count(stops),
    decreases stops.len(),
{
    if stops.len() > 0 {
        let d = stops.drop_last();
        if stops.last().parent_station_id is None && id == stops.last().id {
            lemma_station_count_le(d);
        } else {
            lemma_pass1_values(d, id);
        }
    }
}

/// The second pass never touches the binding of a parentless stop's id.
pub proof fn lemma_pass2_preserves(stops: Seq<StopView>, i: nat, k: int)
    requires
        crate::gtfs::stop_ids_unique(stops),
        0 <= k < stops.len(),
        stops[k].parent_station_id is None,
        i <= stops.len(),
    ensures
        pass2_map(stops, i).contains_key(stops[k].id),
        pass2_map(stops, i)[stops[k].id] == pass1_map(stops)[stops[k].id],
    decreases i,
{
    lemma_pass1_contains(stops, k);
    if i > 0 {
        lemma_pass2_preserves(stops, (i - 1) as nat, k);
        if stops[i - 1].parent_station_id is Some {
            assert(i - 1 != k);
            assert(stops[i - 1].id != stops[k].id);
        }
    }
}

/// Once set, a stop's alias binding survives the rest of the second pass.
pub proof fn lemma_pass2_key_stable(stops: Seq<StopView>, i0: nat, i: nat, j: int)
    requires
        crate::gtfs::stop_ids_unique(stops),
        0 <= j < stops.len(),
        j < i0 <= i <= stops.len(),
        pass2_map(stops, i0).contains_key(stops[j].id),
    ensures
        pass2_map(stops, i).contains_key(stops[j].id),
        pass2_map(stops, i)[stops[j].id] == pass2_map(stops, i0)[stops[j].id],
    decreases i,
{
    if i > i0 {
        lemma_pass2_key_stable(stops, i0, (i - 1) as nat, j);
        if stops[i - 1].parent_station_id is Some {
            assert(i - 1 != j);
            assert(stops[i - 1].id != stops[j].id);
        }
    }
}

/// Every value of the resolution map is a dense station index.
pub proof fn lemma_pass2_values(stops: Seq<StopView>, i: nat, id: Seq<char>)
    requires
        pass2_map(stops, i).contains_key(id),
    ensures
        pass2_map(stops, i)[id] < station_count(stops),
    decreases i,
{
    if i == 0 || i > stops.len() {
        lemma_pass1_values(stops, id);
    } else {
        let m = pass2_map(stops, (i - 1) as nat);
        match stops[i - 1].parent_station_id {
            Some(p) => {
                if m.contains_key(p) && id == stops[i - 1].id {
                    lemma_pass2_values(stops, (i - 1) as nat, p);
                } else {
                    lemma_pass2_values(stops, (i - 1) as nat, id);
                }
            },
            None => {
                lemma_pass2_values(stops, (i - 1) as nat, id);
            },
        }
    }
}

/// A stop with a parent aliases to the same station as its parent: looking
/// either id up in the resolution map gives the same station index, namely
/// the parent's own.
pub proof fn lemma_station_aliasing(stops: Seq<StopView>, j: int, k: int)
    requires
        crate::gtfs::stop_ids_unique(stops),
        0 <= j < stops.len(),
        0 <= k < stops.len(),
        stops[j].parent_station_id matches Some(p) && stops[k].id == p,
        stops[k].parent_station_id is None,
    ensures
        station_index_map(stops).contains_key(stops[j].id),
        station_index_map(stops).contains_key(stops[k].id),
        station_index_map(stops)[stops[j].id] == station_index_map(stops)[stops[k].id],
        station_index_map(stops)[stops[k].id] == station_count(stops.take(k)) as u32,
    decreases stops.len(),
{
    let p = stops[j].parent_station_id->0;
    lemma_pass1_contains(stops, k);
    lemma_pass2_preserves(stops, stops.len(), k);
    lemma_pass2_preserves(stops, j as nat, k);
    assert(pass2_map(stops, (j + 1) as nat).contains_key(stops[j].id));
    assert(pass2_map(stops, (j + 1) as nat)[stops[j].id] == pass1_map(stops)[p]);
    lemma_pass2_key_stable(stops, (j + 1) as nat, stops.len(), j);
}

/// The exec result of station indexing: the station table and the resolution
/// map from stop ids to station indices.
pub struct StationIndex {
    pub stations: Vec<ConnectionsFromStation>,
    pub index_by_stop_id: vstd::hash_map::StringHashMap<u32>,
}

pub fn build_station_index(stops: &Vec<GtfsStop>) -> (r: StationIndex)
    requires
        stops@.len() <= u32::MAX,
    ensures
        r.stations@.map_values(|s: ConnectionsFromStation| s@) == spec_stations(
            stops@.map_values(|s: GtfsStop| s@),
        ),
        r.index_by_stop_id@ == station_index_map(stops@.map_values(|s: GtfsStop| s@)),
{
    let ghost sv = stops@.map_values(|s: GtfsStop| s@);
    let mut stations: Vec<ConnectionsFromStation> = Vec::new();
    let mut index_by_stop_id: vstd::hash_map::StringHashMap<u32> =
        vstd::hash_map::StringHashMap::new();
    let n = stops.len();
    let mut i: usize = 0;
    proof {
        assert(sv.take(0) =~= Seq::<StopView>::empty());
        assert(stations@.map_values(|s: ConnectionsFromStation| s@) =~= Seq::<
            StationView,
        >::empty());
    }
    while i < n
        invariant
            i <= n,
            n == stops@.len(),
            n <= u32::MAX,
            sv == stops@.map_values(|s: GtfsStop| s@),
            stations@.map_values(|s: ConnectionsFromStation| s@) == spec_stations(
                sv.take(i as int),
            ),
            stations@.len() == station_count(sv.take(i as int)),
            index_by_stop_id@ == pass1_map(sv.take(i as int)),
        decreases n - i,
    {
        proof {
            assert(sv.take(i + 1).drop_last() =~= sv.take(i as int));
            assert(sv.take(i + 1).last() == sv[i as int]);
            assert(sv[i as int] == stops@[i as int]@);
            lemma_station_count_le(sv.take(i as int));
            vstd::seq_lib::lemma_seq_take_len(sv, i as int);
        }
        if stops[i].parent_station_id.is_none() {
            let station_i = stations.len() as u32;
            stations.push(
                ConnectionsFromStation { main_stop_i: i as u32, connections: Vec::new() },
            );
            index_by_stop_id.insert(stops[i].id.clone(), station_i);
            proof {
                assert(stations@.map_values(|s: ConnectionsFromStation| s@) =~= spec_stations(
                    sv.take(i as int),
                ).push(
                    StationView { main_stop_i: i as u32, connections: Seq::empty() },
                ));
            }
        }
        i += 1;
    }
    proof {
        assert(sv.take(n as int) =~= sv);
    }
    let mut j: usize = 0;
    while j < n
        invariant
            j <= n,
            n == stops@.len(),
            sv == stops@.map_values(|s: GtfsStop| s@),
            index_by_stop_id@ == pass2_map(sv, j as nat),
        decreases n - j,
    {
        proof {
            assert(sv[j as int] == stops@[j as int]@);
        }
        match &stops[j].parent_station_id {
            Some(parent) => {
                let found = index_by_stop_id.get(parent.as_str());
                match found {
                    Some(si_ref) => {
                        let si = *si_ref;
                        index_by_stop_id.insert(stops[j].id.clone(), si);
                    },
                    None => {},
                }
            },
            None => {},
        }
        j += 1;
    }
    StationIndex { stations, index_by_stop_id }
}

// ---------------------------------------------------------------------------
// Per-trip stop-time order
// ---------------------------------------------------------------------------

/// The indices of the stop-times that belong to the given trip, in input
/// order.
pub open spec fn trip_indices(sts: Seq<StopTimeView>, trip: Seq<char>) -> Seq<int>
    decreases sts.len(),
{
    if sts.len() == 0 {
        Seq::empty()
    } else {
        let rest = trip_indices(sts.drop_last(), trip);
        if sts.last().trip_id == trip {
            rest.push(sts.len() - 1)
        } else {
            rest
        }
    }
}


/// A trip that has stop-times occurs as the trip id of one of them.
pub proof fn lemma_trip_indices_occurs(sts: Seq<StopTimeView>, trip: Seq<char>)
    requires
        trip_indices(sts, trip).len() > 0,
    ensures
        exists|j: int| 0 <= j < sts.len() && sts[j].trip_id == trip,
    decreases sts.len(),
{
    if sts.len() > 0 {
        if sts.last().trip_id == trip {
            assert(sts[sts.len() - 1].trip_id == trip);
        } else {
            lemma_trip_indices_occurs(sts.drop_last(), trip);
            let j = choose|j: int|
                0 <= j < sts.drop_last().len() && sts.drop_last()[j].trip_id == trip;
            assert(sts[j].trip_id == trip);
        }
    }
}

/// Stable insertion by stop sequence: the new index goes behind every entry
/// whose sequence number is not greater.
pub open spec fn insert_idx(sts: Seq<StopTimeView>, s: Seq<int>, x: int) -> Seq<int>
    decreases s.len(),
{
    if s.len() == 0 {
        seq![x]
    } else if sts[s.last()].stop_sequence <= sts[x].stop_sequence {
        s.push(x)
    } else {
        insert_idx(sts, s.drop_last(), x).push(s.last())
    }
}

/// Stable sort of stop-time indices by stop sequence: the order in which one
/// trip's stops are visited.
pub open spec fn sort_idx(sts: Seq<StopTimeView>, s: Seq<int>) -> Seq<int>
    decreases s.len(),
{
    if s.len() == 0 {
        Seq::empty()
    } else {
        insert_idx(sts, sort_idx(sts, s.drop_last()), s.last())
    }
}

pub proof fn lemma_insert_idx_at(sts: Seq<StopTimeView>, s: Seq<int>, x: int, k: int)
    requires
        0 <= k <= s.len(),
        forall|j: int| k <= j < s.len() ==> sts[#[trigger] s[j]].stop_sequence > sts[x].stop_sequence,
        k > 0 ==> sts[s[k - 1]].stop_sequence <= sts[x].stop_sequence,
    ensures
        insert_idx(sts, s, x) == s.subrange(0, k) + seq![x] + s.subrange(k, s.len() as int),
    decreases s.len(),
{
    if s.len() == 0 {
        assert(insert_idx(sts, s, x) =~= s.subrange(0, k) + seq![x] + s.subrange(
            k,
            s.len() as int,
        ));
    } else if k == s.len() {
        assert(insert_idx(sts, s, x) =~= s.subrange(0, k) + seq![x] + s.subrange(
            k,
            s.len() as int,
        ));
    } else {
        assert(sts[s[s.len() - 1]].stop_sequence > sts[x].stop_sequence);
        lemma_insert_idx_at(sts, s.drop_last(), x, k);
        assert(insert_idx(sts, s, x) =~= s.subrange(0, k) + seq![x] + s.subrange(
            k,
            s.len() as int,
        )) by {
            assert(forall|j: int|
                0 <= j < s.drop_last().len() ==> #[trigger] s.drop_last()[j] == s[j]);
        }
    }
}

/// Sorts a trip's stop-time indices by stop sequence. The sort is the stable
/// insertion order that `sort_idx` denotes; entries with equal sequence
/// numbers keep their input order.
fn sorted_by_stop_sequence(stop_times: &Vec<GtfsStopTime>, group: Vec<usize>) -> (r: Vec<usize>)
    requires
        forall|j: int| 0 <= j < group@.len() ==> group@[j] < stop_times@.len(),
    ensures
        r@.map_values(|x: usize| x as int) == sort_idx(
            stop_times@.map_values(|s: GtfsStopTime| s@),
            group@.map_values(|x: usize| x as int),
        ),
        forall|j: int| 0 <= j < r@.len() ==> r@[j] < stop_times@.len(),
{
    let ghost sts = stop_times@.map_values(|s: GtfsStopTime| s@);
    let ghost gv = group@.map_values(|x: usize| x as int);
    let mut r: Vec<usize> = Vec::new();
    let n = group.len();
    let mut i: usize = 0;
    proof {
        assert(gv.take(0) =~= Seq::<int>::empty());
        assert(r@.map_values(|x: usize| x as int) =~= Seq::<int>::empty());
    }
    while i < n
        invariant
            i <= n,
            n == group@.len(),
            sts == stop_times@.map_values(|s: GtfsStopTime| s@),
            gv == group@.map_values(|x: usize| x as int),
            forall|j: int| 0 <= j < group@.len() ==> group@[j] < stop_times@.len(),
            forall|j: int| 0 <= j < r@.len() ==> r@[j] < stop_times@.len(),
            r@.map_values(|x: usize| x as int) == sort_idx(sts, gv.take(i as int)),
        decreases n - i,
    {
        let x = group[i];
        let mut k: usize = r.len();
        while k > 0 && stop_times[r[k - 1]].stop_sequence > stop_times[x].stop_sequence
            invariant
                k <= r@.len(),
                sts == stop_times@.map_values(|s: GtfsStopTime| s@),
                forall|j: int| 0 <= j < r@.len() ==> r@[j] < stop_times@.len(),
                x < stop_times@.len(),
                forall|j: int|
                    k <= j < r@.len() ==> sts[#[trigger] r@[j] as int].stop_sequence
                        > sts[x as int].stop_sequence,
            decreases k,
        {
            proof {
                assert(stop_times@[r@[k - 1] as int]@ == sts[r@[k - 1] as int]);
            }
            k -= 1;
        }
        let ghost rv_old = r@.map_values(|y: usize| y as int);
        proof {
            if k > 0 {
                assert(stop_times@[r@[k - 1] as int]@ == sts[r@[k - 1] as int]);
                assert(sts[rv_old[k - 1]].stop_sequence <= sts[x as int].stop_sequence);
            }
            let ghost xi: int = x as int;
            assert(forall|j: int|
                k <= j < rv_old.len() ==> sts[#[trigger] rv_old[j]].stop_sequence
                    > sts[xi].stop_sequence);
            lemma_insert_idx_at(sts, rv_old, x as int, k as int);
        }
        r.insert(k, x);
        i += 1;
        proof {
            assert(r@.map_values(|y: usize| y as int) =~= rv_old.subrange(0, k as int) + seq![
                x as int
            ] + rv_old.subrange(k as int, rv_old.len() as int));
            assert(gv.take(i as int).drop_last() =~= gv.take(i - 1));
            assert(gv.take(i as int).last() == gv[i - 1]);
            assert(gv[i - 1] == x as int);
        }
    }
    proof {
        assert(gv.take(n as int) =~= gv);
    }
    r
}

// ---------------------------------------------------------------------------
// Trip bucketing
// ---------------------------------------------------------------------------

/// The trip id that one bucket collects: the trip id of its first stop-time.
pub open spec fn group_trip_id(sts: Seq<StopTimeView>, groups: Seq<Vec<usize>>, g: int) -> Seq<
    char,
> {
    sts[groups[g]@[0] as int].trip_id
}

/// Buckets the stop-times by trip id: one bucket per distinct trip id,
/// holding the indices of that trip's stop-times in input order.
fn group_stop_times_by_trip(stop_times: &Vec<GtfsStopTime>) -> (groups: Vec<Vec<usize>>)
    ensures
        forall|g: int| 0 <= g < groups@.len() ==> #[trigger] groups@[g]@.len() > 0,
        forall|g: int, j: int|
            0 <= g < groups@.len() && 0 <= j < groups@[g]@.len() ==> #[trigger] groups@[g]@[j]
                < stop_times@.len(),
        forall|g: int|
            #![trigger groups@[g]]
            0 <= g < groups@.len() ==> groups@[g]@.map_values(|x: usize| x as int)
                == trip_indices(
                stop_times@.map_values(|s: GtfsStopTime| s@),
                group_trip_id(stop_times@.map_values(|s: GtfsStopTime| s@), groups@, g),
            ),
        forall|g1: int, g2: int|
            #![trigger groups@[g1], groups@[g2]]
            0 <= g1 < groups@.len() && 0 <= g2 < groups@.len() && g1 != g2 ==> group_trip_id(
                stop_times@.map_values(|s: GtfsStopTime| s@),
                groups@,
                g1,
            ) != group_trip_id(stop_times@.map_values(|s: GtfsStopTime| s@), groups@, g2),
        forall|j: int|
            #![trigger stop_times@[j]]
            0 <= j < stop_times@.len() ==> exists|g: int|
                #![trigger groups@[g]]
                0 <= g < groups@.len() && group_trip_id(
                    stop_times@.map_values(|s: GtfsStopTime| s@),
                    groups@,
                    g,
                ) == stop_times@.map_values(|s: GtfsStopTime| s@)[j].trip_id,
{
    let ghost sts = stop_times@.map_values(|s: GtfsStopTime| s@);
    let mut groups: Vec<Vec<usize>> = Vec::new();
    let mut idx: vstd::hash_map::StringHashMap<usize> = vstd::hash_map::StringHashMap::new();
    let n = stop_times.len();
    let mut i: usize = 0;
    while i < n
        invariant
            i <= n,
            n == stop_times@.len(),
            sts == stop_times@.map_values(|s: GtfsStopTime| s@),
            groups@.len() <= i,
            forall|g: int| 0 <= g < groups@.len() ==> #[trigger] groups@[g]@.len() > 0,
            forall|g: int, j: int|
                0 <= g < groups@.len() && 0 <= j < groups@[g]@.len() ==> #[trigger] groups@[g]@[j]
                    < i,
            forall|g: int|
                #![trigger groups@[g]]
                0 <= g < groups@.len() ==> groups@[g]@.map_values(|x: usize| x as int)
                    == trip_indices(sts.take(i as int), group_trip_id(sts, groups@, g)),
            forall|g1: int, g2: int|
                #![trigger groups@[g1], groups@[g2]]
                0 <= g1 < groups@.len() && 0 <= g2 < groups@.len() && g1 != g2 ==> group_trip_id(
                    sts,
                    groups@,
                    g1,
                ) != group_trip_id(sts, groups@, g2),
            forall|j: int|
                0 <= j < i ==> idx@.contains_key(#[trigger] sts[j].trip_id),
            forall|t: Seq<char>|
                idx@.contains_key(t) ==> #[trigger] idx@[t] < groups@.len() && group_trip_id(
                    sts,
                    groups@,
                    idx@[t] as int,
                ) == t,
        decreases n - i,
    {
        proof {
            assert(sts.take(i + 1).drop_last() =~= sts.take(i as int));
            assert(sts.take(i + 1).last() == sts[i as int]);
            assert(sts[i as int] == stop_times@[i as int]@);
        }
        let ghost groups_old = groups@;
        let tid = &stop_times[i].trip_id;
        let found = idx.get(tid.as_str());
        match found {
            Some(g_ref) => {
                let g = *g_ref;
                groups[g].push(i);
                proof {
                    assert(groups@[g as int]@[0] == groups_old[g as int]@[0]);
                    assert(forall|g2: int|
                        0 <= g2 < groups@.len() && g2 != g ==> groups@[g2] == groups_old[g2]);
                    assert(forall|g2: int|
                        0 <= g2 < groups@.len() ==> group_trip_id(sts, groups@, g2)
                            == group_trip_id(sts, groups_old, g2));
                    assert(group_trip_id(sts, groups@, g as int) == sts[i as int].trip_id);
                    assert(groups@[g as int]@.map_values(|x: usize| x as int) =~= groups_old[
                        g as int
                    ]@.map_values(|x: usize| x as int).push(i as int));
                    assert forall|t: Seq<char>| idx@.contains_key(t) implies #[trigger] idx@[t]
                        < groups@.len() && group_trip_id(sts, groups@, idx@[t] as int) == t by {
                        assert(group_trip_id(sts, groups@, idx@[t] as int) == group_trip_id(
                            sts,
                            groups_old,
                            idx@[t] as int,
                        ));
                    }
                }
            },
            None => {
                let mut fresh: Vec<usize> = Vec::new();
                fresh.push(i);
                groups.push(fresh);
                idx.insert(tid.clone(), groups.len() - 1);
                proof {
                    let g = groups@.len() - 1;
                    assert(forall|g2: int|
                        0 <= g2 < g ==> groups@[g2] == groups_old[g2]);
                    assert(forall|g2: int|
                        0 <= g2 < g ==> group_trip_id(sts, groups@, g2) == group_trip_id(
                            sts,
                            groups_old,
                            g2,
                        ));
                    assert(group_trip_id(sts, groups@, g) == sts[i as int].trip_id);
                    // the new trip id was never seen, so its bucket starts empty
                    if trip_indices(sts.take(i as int), sts[i as int].trip_id).len() > 0 {
                        lemma_trip_indices_occurs(sts.take(i as int), sts[i as int].trip_id);
                        let j = choose|j: int|
                            0 <= j < sts.take(i as int).len() && sts.take(i as int)[j].trip_id
                                == sts[i as int].trip_id;
                        assert(idx@.contains_key(sts[j].trip_id));
                        assert(false);
                    }
                    assert(groups@[g]@.map_values(|x: usize| x as int) =~= trip_indices(
                        sts.take(i as int),
                        sts[i as int].trip_id,
                    ).push(i as int));
                    assert forall|t: Seq<char>| idx@.contains_key(t) implies #[trigger] idx@[t]
                        < groups@.len() && group_trip_id(sts, groups@, idx@[t] as int) == t by {
                        if t == tid@ {
                            assert(idx@[t] == g);
                        } else {
                            assert(group_trip_id(sts, groups@, idx@[t] as int) == group_trip_id(
                                sts,
                                groups_old,
                                idx@[t] as int,
                            ));
                        }
                    }
                }
            },
        }
        i += 1;
    }
    proof {
        assert(sts.take(n as int) =~= sts);
        assert forall|j: int| #![trigger sts[j]] 0 <= j < sts.len() implies exists|g: int|
            #![trigger groups@[g]]
            0 <= g < groups@.len() && group_trip_id(sts, groups@, g) == sts[j].trip_id by {
            let t = sts[j].trip_id;
            assert(idx@.contains_key(t));
            let g = idx@[t] as int;
            assert(0 <= g < groups@.len() && group_trip_id(sts, groups@, g) == t);
        }
    }
    groups
}

// ---------------------------------------------------------------------------
// Observations
// ---------------------------------------------------------------------------

/// The k-th consecutive pair of one trip's visiting order, as an edge
/// observation: both stops resolve to stations, the departure from the first
/// and the arrival at the second are present, and the traversal takes
/// `arrival - departure` seconds. `None` when the pair is skipped.
pub open spec fn pair_of(
    sts: Seq<StopTimeView>,
    m: Map<Seq<char>, u32>,
    order: Seq<int>,
    k: int,
) -> Option<(u32, u32, int)> {
    if 0 <= k < order.len() - 1 {
        let a = sts[order[k]];
        let b = sts[order[k + 1]];
        if m.contains_key(a.stop_id) && m.contains_key(b.stop_id) && a.departure_time is Some
            && b.arrival_time is Some {
            Some((m[a.stop_id], m[b.stop_id], b.arrival_time->0 - a.departure_time->0))
        } else {
            None
        }
    } else {
        None
    }
}

pub open spec fn observed_in_order(
    sts: Seq<StopTimeView>,
    m: Map<Seq<char>, u32>,
    order: Seq<int>,
    u: u32,
    v: u32,
    d: int,
) -> bool {
    exists|k: int| #[trigger] pair_of(sts, m, order, k) == Some((u, v, d))
}

/// Somewhere in the feed, a trip serves station `u` and right after it
/// station `v`, taking `d` seconds: the trip's stop-times, put in visiting
/// order, show the pair.
pub open spec fn observed(
    sts: Seq<StopTimeView>,
    m: Map<Seq<char>, u32>,
    u: u32,
    v: u32,
    d: int,
) -> bool {
    exists|i: int|
        #![trigger sts[i]]
        0 <= i < sts.len() && observed_in_order(
            sts,
            m,
            sort_idx(sts, trip_indices(sts, sts[i].trip_id)),
            u,
            v,
            d,
        )
}

/// The stop-time table as mathematical values.
pub open spec fn stop_time_views(stop_times: Seq<GtfsStopTime>) -> Seq<StopTimeView> {
    stop_times.map_values(|s: GtfsStopTime| s@)
}

/// The observation list holds the triple.
pub open spec fn obs_has(obs: Seq<(u32, u32, i64)>, u: u32, v: u32, d: int) -> bool {
    exists|j: int|
        #![trigger obs[j]]
        0 <= j < obs.len() && obs[j].0 == u && obs[j].1 == v && obs[j].2 as int == d
}

/// Walks every trip in visiting order and lists every observation: each
/// consecutive resolvable pair, with its signed traversal time.
#[verifier::loop_isolation(false)]
#[verifier::rlimit(60)]
fn collect_observations(
    stop_times: &Vec<GtfsStopTime>,
    index_by_stop_id: &vstd::hash_map::StringHashMap<u32>,
) -> (obs: Vec<(u32, u32, i64)>)
    ensures
        forall|j: int|
            0 <= j < obs@.len() ==> observed(
                stop_time_views(stop_times@),
                index_by_stop_id@,
                (#[trigger] obs@[j]).0,
                obs@[j].1,
                obs@[j].2 as int,
            ),
        forall|u: u32, v: u32, d: int|
            #[trigger] observed(stop_time_views(stop_times@), index_by_stop_id@, u, v, d)
                ==> obs_has(obs@, u, v, d),
{
    let ghost sts = stop_time_views(stop_times@);
    let ghost m = index_by_stop_id@;
    proof {
        assert(sts == stop_times@.map_values(|s: GtfsStopTime| s@));
    }
    let groups = group_stop_times_by_trip(stop_times);
    let mut obs: Vec<(u32, u32, i64)> = Vec::new();
    let ng = groups.len();
    let mut g: usize = 0;
    while g < ng
        invariant
            g <= ng,
            forall|j: int|
                0 <= j < obs@.len() ==> observed(
                    sts,
                    m,
                    (#[trigger] obs@[j]).0,
                    obs@[j].1,
                    obs@[j].2 as int,
                ),
            forall|g2: int, u: u32, v: u32, d: int|
                #![trigger groups@[g2], observed_in_order(sts, m, sort_idx(sts, trip_indices(sts, group_trip_id(sts, groups@, g2))), u, v, d)]
                0 <= g2 < g && observed_in_order(
                    sts,
                    m,
                    sort_idx(sts, trip_indices(sts, group_trip_id(sts, groups@, g2))),
                    u,
                    v,
                    d,
                ) ==> obs_has(obs@, u, v, d),
        decreases ng - g,
    {
        let ghost obs_at_start = obs@;
        let group = groups[g].clone();
        proof {
            assert(group@ =~= groups@[g as int]@);
        }
        let sorted = sorted_by_stop_sequence(stop_times, group);
        let ghost order = sort_idx(sts, trip_indices(sts, group_trip_id(sts, groups@, g as int)));
        proof {
            assert(sorted@.map_values(|x: usize| x as int) == order);
            let i0 = groups@[g as int]@[0] as int;
            assert(0 <= i0 < sts.len());
            assert(sts[i0].trip_id == group_trip_id(sts, groups@, g as int));
        }
        let sn = sorted.len();
        let mut k: usize = 0;
        while k + 1 < sn
            invariant
                sn > 0 ==> k < sn,
                sn == 0 ==> k == 0,
                forall|j: int|
                    0 <= j < obs@.len() ==> observed(
                        sts,
                        m,
                        (#[trigger] obs@[j]).0,
                        obs@[j].1,
                        obs@[j].2 as int,
                    ),
                observed_for_group_prefix(sts, m, order, k as int, obs@),
                obs_at_start.len() <= obs@.len(),
                forall|j: int|
                    0 <= j < obs_at_start.len() ==> #[trigger] obs@[j] == obs_at_start[j],
            decreases sn - k,
        {
            let a_i = sorted[k];
            let b_i = sorted[k + 1];
            let a_dep = stop_times[a_i].departure_time;
            let b_arr = stop_times[b_i].arrival_time;
            let ua = index_by_stop_id.get(stop_times[a_i].stop_id.as_str());
            let vb = index_by_stop_id.get(stop_times[b_i].stop_id.as_str());
            proof {
                assert(sts[order[k as int]] == stop_times@[a_i as int]@);
                assert(sts[order[k as int + 1]] == stop_times@[b_i as int]@);
            }
            let ghost obs_old = obs@;
            match (ua, vb, a_dep, b_arr) {
                (Some(u_ref), Some(v_ref), Some(dep), Some(arr)) => {
                    let u = *u_ref;
                    let v = *v_ref;
                    let d: i64 = (arr as i64) - (dep as i64);
                    proof {
                        assert(pair_of(sts, m, order, k as int) == Some((u, v, d as int)));
                        let i0 = groups@[g as int]@[0] as int;
                        assert(observed_in_order(sts, m, order, u, v, d as int));
                        assert(observed(sts, m, u, v, d as int)) by {
                            assert(0 <= i0 < sts.len() && observed_in_order(
                                sts,
                                m,
                                sort_idx(sts, trip_indices(sts, sts[i0].trip_id)),
                                u,
                                v,
                                d as int,
                            ));
                        }
                    }
                    obs.push((u, v, d));
                    proof {
                        assert(obs@[obs@.len() - 1] == (u, v, d));
                    }
                },
                _ => {
                    proof {
                        assert(pair_of(sts, m, order, k as int) is None);
                    }
                },
            }
            k += 1;
            proof {
                assert forall|k2: int|
                    k2 < k && (#[trigger] pair_of(sts, m, order, k2)) is Some implies obs_has(
                    obs@,
                    pair_of(sts, m, order, k2)->Some_0.0,
                    pair_of(sts, m, order, k2)->Some_0.1,
                    pair_of(sts, m, order, k2)->Some_0.2,
                ) by {
                    if k2 < k - 1 {
                        let jx = choose|jx: int|
                            #![trigger obs_old[jx]]
                            0 <= jx < obs_old.len() && obs_old[jx].0 == pair_of(
                                sts,
                                m,
                                order,
                                k2,
                            )->Some_0.0 && obs_old[jx].1 == pair_of(sts, m, order, k2)->Some_0.1
                                && obs_old[jx].2 as int == pair_of(sts, m, order, k2)->Some_0.2;
                        assert(obs@[jx] == obs_old[jx]);
                    } else {
                        assert(obs@[obs@.len() - 1].0 == pair_of(sts, m, order, k2)->Some_0.0);
                    }
                }
            }
        }
        g += 1;
        proof {
            assert forall|g2: int, u: u32, v: u32, d: int|
                #![trigger groups@[g2], observed_in_order(sts, m, sort_idx(sts, trip_indices(sts, group_trip_id(sts, groups@, g2))), u, v, d)]
                0 <= g2 < g && observed_in_order(
                    sts,
                    m,
                    sort_idx(sts, trip_indices(sts, group_trip_id(sts, groups@, g2))),
                    u,
                    v,
                    d,
                ) implies obs_has(obs@, u, v, d) by {
                if g2 == g - 1 {
                    let kx = choose|kx: int| #[trigger] pair_of(
                        sts,
                        m,
                        sort_idx(sts, trip_indices(sts, group_trip_id(sts, groups@, g2))),
                        kx,
                    ) == Some((u, v, d));
                    assert(pair_of(sts, m, order, kx) == Some((u, v, d)));
                    assert(kx < k);
                } else {
                    let jx = choose|jx: int|
                        #![trigger obs_at_start[jx]]
                        0 <= jx < obs_at_start.len() && obs_at_start[jx].0 == u
                            && obs_at_start[jx].1 == v && obs_at_start[jx].2 as int == d;
                    assert(obs@[jx] == obs_at_start[jx]);
                }
            }
        }
    }
    proof {
        assert forall|u: u32, v: u32, d: int|
            observed(sts, m, u, v, d) implies obs_has(obs@, u, v, d) by {
            let i = choose|i: int|
                #![trigger sts[i]]
                0 <= i < sts.len() && observed_in_order(
                    sts,
                    m,
                    sort_idx(sts, trip_indices(sts, sts[i].trip_id)),
                    u,
                    v,
                    d,
                );
            assert(stop_times@[i] == stop_times@[i]);
            let g2 = choose|g2: int|
                #![trigger groups@[g2]]
                0 <= g2 < groups@.len() && group_trip_id(sts, groups@, g2) == sts[i].trip_id;
            assert(observed_in_order(
                sts,
                m,
                sort_idx(sts, trip_indices(sts, group_trip_id(sts, groups@, g2))),
                u,
                v,
                d,
            ));
        }
    }
    obs
}

/// Everything the pair scan has already passed is in the observation list.
pub open spec fn observed_for_group_prefix(
    sts: Seq<StopTimeView>,
    m: Map<Seq<char>, u32>,
    order: Seq<int>,
    k: int,
    obs: Seq<(u32, u32, i64)>,
) -> bool {
    forall|k2: int|
        k2 < k && (#[trigger] pair_of(sts, m, order, k2)) is Some ==> obs_has(
            obs,
            pair_of(sts, m, order, k2)->Some_0.0,
            pair_of(sts, m, order, k2)->Some_0.1,
            pair_of(sts, m, order, k2)->Some_0.2,
        )
}


// ---------------------------------------------------------------------------
// Minimum durations and materialization
// ---------------------------------------------------------------------------

/// One 64-bit key per ordered station pair.
pub open spec fn pack(u: u32, v: u32) -> u64 {
    ((u as u64) << 32) | (v as u64)
}

pub proof fn lemma_pack_inj(u: u32, v: u32, u2: u32, v2: u32)
    requires
        pack(u, v) == pack(u2, v2),
    ensures
        u == u2 && v == v2,
{
    assert(((u as u64) << 32) | (v as u64) == ((u2 as u64) << 32) | (v2 as u64) ==> u == u2
        && v == v2) by (bit_vector);
}

/// The observation at `j` is a positive sighting of the pair `u -> v`.
pub open spec fn pos_obs_at(obs: Seq<(u32, u32, i64)>, j: int, u: u32, v: u32) -> bool {
    0 <= j < obs.len() && obs[j].0 == u && obs[j].1 == v && obs[j].2 > 0
}

/// The edge is a positive observation of its pair, and no positive
/// observation of the pair is shorter: the minimum that the graph keeps.
pub open spec fn edge_is_min(
    sts: Seq<StopTimeView>,
    m: Map<Seq<char>, u32>,
    u: u32,
    c: ConnectionToStation,
) -> bool {
    &&& c.duration > 0
    &&& observed(sts, m, u, c.to_station_i, c.duration as int)
    &&& forall|d2: int|
        #[trigger] observed(sts, m, u, c.to_station_i, d2) && d2 > 0 ==> d2 >= c.duration
}

/// Every station pair that any trip serves consecutively in positive time
/// gets exactly one edge, weighted by the smallest positive observation.
pub proof fn lemma_observed_values(stops: Seq<StopView>, sts: Seq<StopTimeView>, u: u32, v: u32, d: int)
    requires
        observed(sts, station_index_map(stops), u, v, d),
    ensures
        u < station_count(stops),
        v < station_count(stops),
{
    let m = station_index_map(stops);
    let i = choose|i: int|
        #![trigger sts[i]]
        0 <= i < sts.len() && observed_in_order(
            sts,
            m,
            sort_idx(sts, trip_indices(sts, sts[i].trip_id)),
            u,
            v,
            d,
        );
    let order = sort_idx(sts, trip_indices(sts, sts[i].trip_id));
    let k = choose|k: int| #[trigger] pair_of(sts, m, order, k) == Some((u, v, d));
    lemma_pass2_values(stops, stops.len(), sts[order[k]].stop_id);
    lemma_pass2_values(stops, stops.len(), sts[order[k + 1]].stop_id);
}

/// Derives the direct-connection graph from the normalized feed: index the
/// stations, walk every trip in visiting order, and keep for every station
/// pair the smallest positive traversal time as its single edge.
#[verifier::loop_isolation(false)]
#[verifier::rlimit(100)]
pub fn build_connections(data: &GtfsData) -> (r: AllConnections)
    requires
        data.stops@.len() <= u32::MAX,
    ensures
        r@.stations.len() == station_count(data@.stops),
        forall|s: int|
            0 <= s < r@.stations.len() ==> (#[trigger] r@.stations[s]).main_stop_i
                == spec_stations(data@.stops)[s].main_stop_i,
        forall|s: int, e: int|
            0 <= s < r@.stations.len() && 0 <= e < r@.stations[s].connections.len()
                ==> edge_is_min(
                data@.stop_times,
                station_index_map(data@.stops),
                s as u32,
                #[trigger] r@.stations[s].connections[e],
            ),
        forall|u: u32, v: u32, d: int|
            #[trigger] observed(data@.stop_times, station_index_map(data@.stops), u, v, d) && d
                > 0 ==> exists|e: int|
                0 <= e < r@.stations[u as int].connections.len() && (#[trigger] r@.stations[
                    u as int
                ].connections[e]).to_station_i == v,
        forall|s: int, e1: int, e2: int|
            0 <= s < r@.stations.len() && 0 <= e1 < r@.stations[s].connections.len() && 0 <= e2
                < r@.stations[s].connections.len() && (#[trigger] r@.stations[s].connections[e1]).to_station_i
                == (#[trigger] r@.stations[s].connections[e2]).to_station_i ==> e1 == e2,
{
    let ghost stops = data@.stops;
    let ghost sts = data@.stop_times;
    proof {
        assert(stops =~= data.stops@.map_values(|s: GtfsStop| s@));
        assert(sts =~= stop_time_views(data.stop_times@));
    }
    let si = build_station_index(&data.stops);
    let mut stations = si.stations;
    let ghost m = station_index_map(stops);
    proof {
        assert(si.index_by_stop_id@ == m);
        lemma_station_count_le(stops);
        assert(stations@.map_values(|s: ConnectionsFromStation| s@) == spec_stations(stops));
    }
    let obs = collect_observations(&data.stop_times, &si.index_by_stop_id);
    let n_stations = stations.len();
    proof {
        assert(n_stations == station_count(stops));
    }

    // smallest positive duration per pair
    let mut mm: HashMap<u64, u32> = HashMap::new();
    let n_obs = obs.len();
    let mut j: usize = 0;
    while j < n_obs
        invariant
            j <= n_obs,
            forall|u: u32, v: u32|
                #![trigger pack(u, v)]
                mm@.contains_key(pack(u, v)) <==> exists|j2: int|
                    j2 < j && #[trigger] pos_obs_at(obs@, j2, u, v),
            forall|u: u32, v: u32|
                #![trigger pack(u, v)]
                mm@.contains_key(pack(u, v)) ==> {
                    &&& mm@[pack(u, v)] > 0
                    &&& exists|j2: int|
                        j2 < j && #[trigger] pos_obs_at(obs@, j2, u, v) && obs@[j2].2
                            == mm@[pack(u, v)] as i64
                    &&& forall|j2: int|
                        j2 < j && #[trigger] pos_obs_at(obs@, j2, u, v) ==> obs@[j2].2
                            >= mm@[pack(u, v)] as i64
                },
        decreases n_obs - j,
    {
        let (u, v, d) = obs[j];
        if d > 0 {
            proof {
                assert(observed(sts, m, u, v, d as int));
                assert(obs@[j as int].2 <= u32::MAX as i64);
            }
            let key: u64 = ((u as u64) << 32) | (v as u64);
            proof {
                assert(key == pack(u, v));
            }
            let cur = match mm.get(&key) {
                Some(c) => Some(*c),
                None => None,
            };
            let newmin: u32 = match cur {
                Some(c) => {
                    if d < c as i64 {
                        d as u32
                    } else {
                        c
                    }
                },
                None => d as u32,
            };
            mm.insert(key, newmin);
            proof {
                assert(pos_obs_at(obs@, j as int, u, v));
                assert forall|ux: u32, vx: u32|
                    #![trigger pack(ux, vx)]
                    mm@.contains_key(pack(ux, vx)) implies exists|j2: int|
                    j2 < j + 1 && #[trigger] pos_obs_at(obs@, j2, ux, vx) by {
                    if pack(ux, vx) == key {
                        lemma_pack_inj(ux, vx, u, v);
                        assert(pos_obs_at(obs@, j as int, ux, vx));
                    }
                }
                assert forall|ux: u32, vx: u32|
                    #![trigger pack(ux, vx)]
                    (exists|j2: int| j2 < j + 1 && #[trigger] pos_obs_at(obs@, j2, ux, vx))
                    implies mm@.contains_key(pack(ux, vx)) by {
                    let j2 = choose|j2: int| j2 < j + 1 && #[trigger] pos_obs_at(obs@, j2, ux, vx);
                    if j2 < j {
                    } else {
                        lemma_pack_inj(ux, vx, u, v);
                    }
                }
                assert forall|ux: u32, vx: u32|
                    #![trigger pack(ux, vx)]
                    mm@.contains_key(pack(ux, vx)) implies {
                    &&& mm@[pack(ux, vx)] > 0
                    &&& exists|j2: int|
                        j2 < j + 1 && #[trigger] pos_obs_at(obs@, j2, ux, vx) && obs@[j2].2
                            == mm@[pack(ux, vx)] as i64
                    &&& forall|j2: int|
                        j2 < j + 1 && #[trigger] pos_obs_at(obs@, j2, ux, vx) ==> obs@[j2].2
                            >= mm@[pack(ux, vx)] as i64
                } by {
                    if pack(ux, vx) == key {
                        lemma_pack_inj(ux, vx, u, v);
                        assert(mm@[key] == newmin);
                        assert(pos_obs_at(obs@, j as int, u, v) && obs@[j as int].2 == d);
                        assert forall|j2: int|
                            j2 < j + 1 && #[trigger] pos_obs_at(obs@, j2, ux, vx) implies obs@[
                            j2
                        ].2 >= newmin as i64 by {
                            if j2 < j {
                                match cur {
                                    Some(c) => {
                                        assert(obs@[j2].2 >= c as i64);
                                    },
                                    None => {
                                        assert(false);
                                    },
                                }
                            }
                        }
                    } else {
                        assert forall|j2: int|
                            j2 < j + 1 && #[trigger] pos_obs_at(obs@, j2, ux, vx) implies obs@[
                            j2
                        ].2 >= mm@[pack(ux, vx)] as i64 by {
                            if j2 == j {
                                lemma_pack_inj(ux, vx, u, v);
                            }
                        }
                    }
                }
            }
        } else {
            proof {
                assert forall|ux: u32, vx: u32|
                    #![trigger pack(ux, vx)]
                    (exists|j2: int| j2 < j + 1 && #[trigger] pos_obs_at(obs@, j2, ux, vx))
                    implies mm@.contains_key(pack(ux, vx)) by {
                    let j2 = choose|j2: int| j2 < j + 1 && #[trigger] pos_obs_at(obs@, j2, ux, vx);
                    assert(j2 < j);
                }
                assert forall|ux: u32, vx: u32|
                    #![trigger pack(ux, vx)]
                    mm@.contains_key(pack(ux, vx)) implies forall|j2: int|
                    j2 < j + 1 && #[trigger] pos_obs_at(obs@, j2, ux, vx) ==> obs@[j2].2
                        >= mm@[pack(ux, vx)] as i64 by {
                    assert forall|j2: int|
                        j2 < j + 1 && #[trigger] pos_obs_at(obs@, j2, ux, vx) implies obs@[j2].2
                        >= mm@[pack(ux, vx)] as i64 by {
                        assert(j2 < j);
                    }
                }
            }
        }
        j += 1;
    }

    // one edge per pair, at the smallest positive duration
    let mut conns: Vec<Vec<ConnectionToStation>> = Vec::new();
    let mut s: usize = 0;
    while s < n_stations
        invariant
            s <= n_stations,
            conns@.len() == s,
            forall|s2: int| 0 <= s2 < s ==> (#[trigger] conns@[s2])@.len() == 0,
        decreases n_stations - s,
    {
        conns.push(Vec::new());
        s += 1;
    }
    let mut emitted: HashMap<u64, bool> = HashMap::new();
    let mut j: usize = 0;
    while j < n_obs
        invariant
            j <= n_obs,
            conns@.len() == n_stations,
            forall|s2: int, e: int|
                0 <= s2 < conns@.len() && 0 <= e < conns@[s2]@.len() ==> {
                    &&& emitted@.contains_key(pack(s2 as u32, (#[trigger] conns@[s2]@[e]).to_station_i))
                    &&& mm@.contains_key(pack(s2 as u32, conns@[s2]@[e].to_station_i))
                    &&& conns@[s2]@[e].duration == mm@[pack(s2 as u32, conns@[s2]@[e].to_station_i)]
                },
            forall|u: u32, v: u32|
                #![trigger pack(u, v)]
                emitted@.contains_key(pack(u, v)) ==> u < n_stations && exists|e: int|
                    0 <= e < conns@[u as int]@.len() && (#[trigger] conns@[u as int]@[e]).to_station_i
                        == v,
            forall|s2: int, e1: int, e2: int|
                0 <= s2 < conns@.len() && 0 <= e1 < conns@[s2]@.len() && 0 <= e2 < conns@[s2]@.len()
                    && (#[trigger] conns@[s2]@[e1]).to_station_i == (#[trigger] conns@[s2]@[e2]).to_station_i
                    ==> e1 == e2,
            forall|j2: int, u: u32, v: u32|
                #![trigger pos_obs_at(obs@, j2, u, v)]
                j2 < j && pos_obs_at(obs@, j2, u, v) && obs@[j2].2 == mm@[pack(u, v)] as i64
                    && mm@.contains_key(pack(u, v)) ==> emitted@.contains_key(pack(u, v)),
        decreases n_obs - j,
    {
        let (u, v, d) = obs[j];
        if d > 0 {
            proof {
                assert(observed(sts, m, u, v, d as int));
                lemma_observed_values(stops, sts, u, v, d as int);
                assert(pos_obs_at(obs@, j as int, u, v));
            }
            let key: u64 = ((u as u64) << 32) | (v as u64);
            proof {
                assert(key == pack(u, v));
            }
            let dm = match mm.get(&key) {
                Some(c) => *c,
                None => {
                    proof {
                        assert(pos_obs_at(obs@, j as int, u, v));
                        assert(false);
                    }
                    0
                },
            };
            if d == dm as i64 {
                let already = match emitted.get(&key) {
                    Some(_) => true,
                    None => false,
                };
                if !already {
                    let ghost conns_old = conns@;
                    conns[u as usize].push(ConnectionToStation { to_station_i: v, duration: dm });
                    emitted.insert(key, true);
                    proof {
                        assert(conns@[u as int]@ =~= conns_old[u as int]@.push(
                            ConnectionToStation { to_station_i: v, duration: dm },
                        ));
                        assert(forall|s2: int|
                            0 <= s2 < conns@.len() && s2 != u ==> conns@[s2] == conns_old[s2]);
                        assert forall|ux: u32, vx: u32|
                            #![trigger pack(ux, vx)]
                            emitted@.contains_key(pack(ux, vx)) implies ux < n_stations
                            && exists|e: int|
                            0 <= e < conns@[ux as int]@.len() && (#[trigger] conns@[ux as int]@[e]).to_station_i
                                == vx by {
                            if pack(ux, vx) == key {
                                lemma_pack_inj(ux, vx, u, v);
                                assert(conns@[u as int]@[conns@[u as int]@.len() - 1].to_station_i
                                    == v);
                            } else {
                                let e = choose|e: int|
                                    0 <= e < conns_old[ux as int]@.len() && (#[trigger] conns_old[
                                        ux as int
                                    ]@[e]).to_station_i == vx;
                                assert(conns@[ux as int]@[e].to_station_i == vx);
                            }
                        }
                        assert forall|s2: int, e1: int, e2: int|
                            0 <= s2 < conns@.len() && 0 <= e1 < conns@[s2]@.len() && 0 <= e2
                            < conns@[s2]@.len() && (#[trigger] conns@[s2]@[e1]).to_station_i
                            == (#[trigger] conns@[s2]@[e2]).to_station_i implies e1 == e2 by {
                            if s2 == u && (e1 == conns@[s2]@.len() - 1 || e2 == conns@[s2]@.len()
                                - 1) && e1 != e2 {
                                let eo = if e1 == conns@[s2]@.len() - 1 {
                                    e2
                                } else {
                                    e1
                                };
                                assert(conns_old[s2]@[eo].to_station_i == v);
                                assert(emitted@.contains_key(pack(u, v)));
                            }
                        }
                    }
                }
            }
        }
        j += 1;
    }

    // hang each station's edges on its record
    let ghost conns_final = conns@;
    let mut s: usize = 0;
    while s < n_stations
        invariant
            s <= n_stations,
            stations@.len() == n_stations,
            conns@.len() == n_stations,
            conns_final.len() == n_stations,
            forall|s2: int|
                0 <= s2 < n_stations ==> (#[trigger] stations@[s2]).main_stop_i == spec_stations(
                    stops,
                )[s2].main_stop_i,
            forall|s2: int| s <= s2 < n_stations ==> #[trigger] conns@[s2] == conns_final[s2],
            forall|s2: int|
                0 <= s2 < s ==> (#[trigger] stations@[s2]).connections@ == conns_final[s2]@,
        decreases n_stations - s,
    {
        let mut tmp: Vec<ConnectionToStation> = Vec::new();
        core::mem::swap(&mut tmp, &mut conns[s]);
        core::mem::swap(&mut stations[s].connections, &mut tmp);
        s += 1;
    }
    let r = AllConnections { stations };
    proof {
        assert(r@.stations.len() == station_count(stops));
        assert forall|u: u32, v: u32, d: int|
            #[trigger] observed(sts, m, u, v, d) && d > 0 implies exists|e: int|
            0 <= e < r@.stations[u as int].connections.len() && (#[trigger] r@.stations[
                u as int
            ].connections[e]).to_station_i == v by {
            lemma_observed_values(stops, sts, u, v, d);
            let jd = choose|jd: int|
                #![trigger obs@[jd]]
                0 <= jd < obs@.len() && obs@[jd].0 == u && obs@[jd].1 == v && obs@[jd].2 as int
                    == d;
            assert(pos_obs_at(obs@, jd, u, v));
            assert(mm@.contains_key(pack(u, v)));
            let jm = choose|jm: int|
                jm < n_obs && #[trigger] pos_obs_at(obs@, jm, u, v) && obs@[jm].2 == mm@[pack(
                    u,
                    v,
                )] as i64;
            assert(emitted@.contains_key(pack(u, v)));
            let e = choose|e: int|
                0 <= e < conns_final[u as int]@.len() && (#[trigger] conns_final[u as int]@[e]).to_station_i
                    == v;
            assert(r@.stations[u as int].connections[e].to_station_i == v);
        }
        assert forall|s2: int, e: int|
            0 <= s2 < r@.stations.len() && 0 <= e < r@.stations[s2].connections.len()
            implies edge_is_min(sts, m, s2 as u32, r@.stations[s2].connections[e]) by {
            let c = r@.stations[s2].connections[e];
            assert(c == conns_final[s2]@[e]);
            assert(mm@.contains_key(pack(s2 as u32, c.to_station_i)) && c.duration == mm@[pack(
                s2 as u32,
                c.to_station_i,
            )]);
            let jm = choose|jm: int|
                jm < n_obs && #[trigger] pos_obs_at(obs@, jm, s2 as u32, c.to_station_i) && obs@[
                    jm
                ].2 == mm@[pack(s2 as u32, c.to_station_i)] as i64;
            assert(observed(sts, m, s2 as u32, c.to_station_i, c.duration as int));
            assert forall|d2: int|
                #[trigger] observed(sts, m, s2 as u32, c.to_station_i, d2) && d2 > 0 implies d2
                >= c.duration by {
                assert(obs_has(obs@, s2 as u32, c.to_station_i, d2));
                let j2 = choose|j2: int|
                    #![trigger obs@[j2]]
                    0 <= j2 < obs@.len() && obs@[j2].0 == s2 as u32 && obs@[j2].1 == c.to_station_i
                        && obs@[j2].2 as int == d2;
                assert(pos_obs_at(obs@, j2, s2 as u32, c.to_station_i));
            }
        }
    }
    r
}

} // verus!
