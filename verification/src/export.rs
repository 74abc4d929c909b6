//! Filters over the station and arrival tables, feeding the JSON exports:
//! name-substring selection of stops, origin lookup by station name, and the
//! reached-stations listing for one query's arrival table.

use vstd::prelude::*;
use vstd::string::StrSliceExecFns;

use crate::connections::AllConnections;
use crate::gtfs::GtfsStop;

verus! {

/// `needle` occurs in `hay` starting at `i`.
pub open spec fn matches_at(hay: Seq<char>, needle: Seq<char>, i: int) -> bool {
    0 <= i && i + needle.len() <= hay.len() && hay.subrange(i, i + needle.len()) == needle
}

/// `needle` occurs somewhere in `hay`.
pub open spec fn contains_seq(hay: Seq<char>, needle: Seq<char>) -> bool {
    exists|i: int| #[trigger] matches_at(hay, needle, i)
}

/// Substring search over the characters of the two strings.
#[verifier::loop_isolation(false)]
pub fn str_contains(hay: &str, needle: &str) -> (r: bool)
    ensures
        r == contains_seq(hay@, needle@),
{
    let n = hay.unicode_len();
    let m = needle.unicode_len();
    if m > n {
        proof {
            assert(forall|i: int| !(#[trigger] matches_at(hay@, needle@, i)));
        }
        return false;
    }
    let mut i: usize = 0;
    while i <= n - m
        invariant
            i <= n - m + 1,
            forall|i2: int| 0 <= i2 < i ==> !(#[trigger] matches_at(hay@, needle@, i2)),
        decreases n - m + 1 - i,
    {
        let mut j: usize = 0;
        while j < m && hay.get_char(i + j) == needle.get_char(j)
            invariant
                j <= m,
                i + m <= n,
                forall|j2: int| 0 <= j2 < j ==> hay@[i + j2] == needle@[j2],
            decreases m - j,
        {
            j += 1;
        }
        if j == m {
            proof {
                assert(hay@.subrange(i as int, i + needle@.len()) =~= needle@);
                assert(matches_at(hay@, needle@, i as int));
            }
            return true;
        }
        proof {
            assert(!matches_at(hay@, needle@, i as int)) by {
                if matches_at(hay@, needle@, i as int) {
                    assert(hay@.subrange(i as int, i + needle@.len())[j as int] == needle@[
                        j as int
                    ]);
                }
            }
        }
        i += 1;
    }
    proof {
        assert(forall|i2: int|
            #![trigger matches_at(hay@, needle@, i2)]
            matches_at(hay@, needle@, i2) ==> 0 <= i2 < i);
    }
    false
}

/// A stop passes the export filter: it is a station (no parent) and its name
/// holds the pattern.
pub open spec fn stop_matches(stop: crate::gtfs::StopView, pattern: Seq<char>) -> bool {
    &&& stop.parent_station_id is None
    &&& stop.name matches Some(nm) && contains_seq(nm, pattern)
}

/// The indices, in order, of the parentless stops whose name holds the
/// pattern: the rows of the station-location export.
pub fn filter_stops_by_name(stops: &Vec<GtfsStop>, pattern: &str) -> (r: Vec<usize>)
    ensures
        forall|k: int|
            0 <= k < r@.len() ==> (#[trigger] r@[k]) < stops@.len() && stop_matches(
                stops@[r@[k] as int]@,
                pattern@,
            ),
        forall|i: int|
            0 <= i < stops@.len() && stop_matches(#[trigger] stops@[i]@, pattern@) ==> exists|
                k: int,
            |
                0 <= k < r@.len() && r@[k] == i,
        forall|k1: int, k2: int| 0 <= k1 < k2 < r@.len() ==> r@[k1] < r@[k2],
{
    let mut r: Vec<usize> = Vec::new();
    let n = stops.len();
    let mut i: usize = 0;
    while i < n
        invariant
            i <= n,
            n == stops@.len(),
            forall|k: int|
                0 <= k < r@.len() ==> (#[trigger] r@[k]) < i && stop_matches(
                    stops@[r@[k] as int]@,
                    pattern@,
                ),
            forall|i2: int|
                0 <= i2 < i && stop_matches(#[trigger] stops@[i2]@, pattern@) ==> exists|k: int|
                    0 <= k < r@.len() && r@[k] == i2,
            forall|k1: int, k2: int| 0 <= k1 < k2 < r@.len() ==> r@[k1] < r@[k2],
        decreases n - i,
    {
        let ghost r_old = r@;
        let keep = match &stops[i].name {
            Some(nm) => {
                if stops[i].parent_station_id.is_none() {
                    str_contains(nm.as_str(), pattern)
                } else {
                    false
                }
            },
            None => false,
        };
        proof {
            assert(keep == stop_matches(stops@[i as int]@, pattern@));
        }
        if keep {
            r.push(i);
            proof {
                assert(r@[r@.len() - 1] == i);
            }
        }
        i += 1;
        proof {
            assert forall|i2: int|
                0 <= i2 < i && stop_matches(#[trigger] stops@[i2]@, pattern@) implies exists|
                k: int,
            |
                0 <= k < r@.len() && r@[k] == i2 by {
                if i2 == i - 1 {
                    assert(r@[r@.len() - 1] == i2);
                } else {
                    let k = choose|k: int| 0 <= k < r_old.len() && r_old[k] == i2;
                    assert(r@[k] == i2);
                }
            }
        }
    }
    r
}

/// Some name of the list equals this one.
pub open spec fn name_listed(names: Seq<String>, nm: Seq<char>) -> bool {
    exists|k: int| 0 <= k < names.len() && (#[trigger] names[k])@ == nm
}

/// A station is an origin candidate: its main stop carries one of the wanted
/// names.
pub open spec fn station_named(
    g: crate::connections::AllConnectionsView,
    stops: Seq<crate::gtfs::StopView>,
    s: int,
    names: Seq<String>,
) -> bool {
    &&& g.stations[s].main_stop_i < stops.len()
    &&& stops[g.stations[s].main_stop_i as int].name matches Some(nm) && name_listed(names, nm)
}

/// The station indices, in order, whose main stop carries one of the wanted
/// names: how a query's origin set is chosen.
pub fn find_station_indices_by_names(
    all_connections: &AllConnections,
    stops: &Vec<GtfsStop>,
    names: &Vec<String>,
) -> (r: Vec<u32>)
    requires
        all_connections@.stations.len() <= u32::MAX,
    ensures
        forall|k: int|
            0 <= k < r@.len() ==> (#[trigger] r@[k]) < all_connections@.stations.len()
                && station_named(
                all_connections@,
                crate::gtfs::stop_views(stops@),
                r@[k] as int,
                names@,
            ),
        forall|s: int|
            0 <= s < all_connections@.stations.len() && #[trigger] station_named(
                all_connections@,
                crate::gtfs::stop_views(stops@),
                s,
                names@,
            ) ==> exists|k: int| 0 <= k < r@.len() && r@[k] == s,
        forall|k1: int, k2: int| 0 <= k1 < k2 < r@.len() ==> r@[k1] < r@[k2],
{
    let ghost sv = crate::gtfs::stop_views(stops@);
    proof {
        assert(sv == stops@.map_values(|s: GtfsStop| s@));
    }
    let mut r: Vec<u32> = Vec::new();
    let n = all_connections.stations.len();
    let mut s: usize = 0;
    while s < n
        invariant
            s <= n,
            n == all_connections@.stations.len(),
            n <= u32::MAX,
            sv == crate::gtfs::stop_views(stops@),
            forall|k: int|
                0 <= k < r@.len() ==> (#[trigger] r@[k]) < s && station_named(
                    all_connections@,
                    sv,
                    r@[k] as int,
                    names@,
                ),
            forall|s2: int|
                0 <= s2 < s && #[trigger] station_named(all_connections@, sv, s2, names@)
                    ==> exists|k: int| 0 <= k < r@.len() && r@[k] == s2,
            forall|k1: int, k2: int| 0 <= k1 < k2 < r@.len() ==> r@[k1] < r@[k2],
        decreases n - s,
    {
        let ghost r_old = r@;
        let main_i = all_connections.stations[s].main_stop_i;
        let mut keep = false;
        if (main_i as usize) < stops.len() {
            proof {
                assert(sv[main_i as int] == stops@[main_i as int]@);
            }
            match &stops[main_i as usize].name {
                Some(nm) => {
                    let mut k: usize = 0;
                    let nn = names.len();
                    while k < nn
                        invariant
                            k <= nn,
                            nn == names@.len(),
                            keep <==> exists|k2: int| 0 <= k2 < k && (#[trigger] names@[k2])@ == nm@,
                        decreases nn - k,
                    {
                        if !keep && names[k] == *nm {
                            keep = true;
                        }
                        proof {
                            if names@[k as int]@ == nm@ {
                                assert(exists|k2: int|
                                    0 <= k2 < k + 1 && (#[trigger] names@[k2])@ == nm@);
                            }
                        }
                        k += 1;
                    }
                },
                None => {},
            }
        }
        proof {
            assert(keep == station_named(all_connections@, sv, s as int, names@));
        }
        if keep {
            r.push(s as u32);
            proof {
                assert(r@[r@.len() - 1] == s as u32);
            }
        }
        s += 1;
        proof {
            assert forall|s2: int|
                0 <= s2 < s && #[trigger] station_named(all_connections@, sv, s2, names@)
                implies exists|k: int| 0 <= k < r@.len() && r@[k] == s2 by {
                if s2 == s - 1 {
                    assert(r@[r@.len() - 1] == s2);
                } else {
                    let k = choose|k: int| 0 <= k < r_old.len() && r_old[k] == s2;
                    assert(r@[k] == s2);
                }
            }
        }
    }
    r
}

/// The reached stations of one arrival table, with their times, in station
/// order: the rows of the arrival export. Unreached stations are left out.
pub fn filter_reached_stations(station_states: &Vec<Option<u32>>) -> (r: Vec<(u32, u32)>)
    requires
        station_states@.len() <= u32::MAX,
    ensures
        forall|k: int|
            0 <= k < r@.len() ==> (#[trigger] r@[k]).0 < station_states@.len()
                && station_states@[r@[k].0 as int] == Some(r@[k].1),
        forall|s: int|
            0 <= s < station_states@.len() && (#[trigger] station_states@[s]) is Some ==> exists|
                k: int,
            |
                0 <= k < r@.len() && (#[trigger] r@[k]).0 == s,
        forall|k1: int, k2: int| 0 <= k1 < k2 < r@.len() ==> r@[k1].0 < r@[k2].0,
{
    let mut r: Vec<(u32, u32)> = Vec::new();
    let n = station_states.len();
    let mut s: usize = 0;
    while s < n
        invariant
            s <= n,
            n == station_states@.len(),
            n <= u32::MAX,
            forall|k: int|
                0 <= k < r@.len() ==> (#[trigger] r@[k]).0 < s && station_states@[r@[k].0 as int]
                    == Some(r@[k].1),
            forall|s2: int|
                0 <= s2 < s && (#[trigger] station_states@[s2]) is Some ==> exists|k: int|
                    0 <= k < r@.len() && (#[trigger] r@[k]).0 == s2,
            forall|k1: int, k2: int| 0 <= k1 < k2 < r@.len() ==> r@[k1].0 < r@[k2].0,
        decreases n - s,
    {
        let ghost r_old = r@;
        match station_states[s] {
            Some(t) => {
                r.push((s as u32, t));
                proof {
                    assert(r@[r@.len() - 1].0 == s as u32);
                }
            },
            None => {},
        }
        s += 1;
        proof {
            assert forall|s2: int|
                0 <= s2 < s && (#[trigger] station_states@[s2]) is Some implies exists|k: int|
                0 <= k < r@.len() && (#[trigger] r@[k]).0 == s2 by {
                if s2 == s - 1 {
                    assert(r@[r@.len() - 1].0 == s2);
                } else {
                    let k = choose|k: int| 0 <= k < r_old.len() && (#[trigger] r_old[k]).0 == s2;
                    assert(r@[k].0 == s2);
                }
            }
        }
    }
    r
}

} // verus!
