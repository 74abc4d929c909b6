//! The shortest-path engine: earliest arrival from a set of origin stations
//! to every station of the direct-connection graph.
//!
//! Both engines relax edges from a station's current arrival time and only
//! ever improve an entry, so every reported time is the weight of a real walk
//! from an origin, and origins stay at zero. The bucketed engine sweeps a
//! time-bucket queue backed by the pooled chunked vectors; the plain queue
//! engine is the reference implementation for cross-checking.

use vstd::prelude::*;

use crate::chunked::{pool_wf, ChunkedVector, ChunkedVectorPool};
use crate::connections::{AllConnections, AllConnectionsView};

verus! {

/// Width of one time bucket, in seconds.
pub const SECONDS_PER_BUCKET: u32 = 30;

/// The horizon: walks beyond this many seconds are not explored further.
pub const MAX_SECONDS: u32 = 180000;

/// One bucket per `SECONDS_PER_BUCKET` slice of the horizon.
pub const BUCKET_COUNT: u32 = MAX_SECONDS / SECONDS_PER_BUCKET + 1;

/// The graph has an edge from `u` to `v` taking `d` seconds.
pub open spec fn has_edge(g: AllConnectionsView, u: u32, v: u32, d: u32) -> bool {
    u < g.stations.len() && exists|e: int|
        0 <= e < g.stations[u as int].connections.len() && (#[trigger] g.stations[
            u as int
        ].connections[e]) == (crate::connections::ConnectionToStation {
            to_station_i: v,
            duration: d,
        })
}

/// Every edge of the graph points at a station of the graph.
pub open spec fn graph_wf(g: AllConnectionsView) -> bool {
    forall|s: int, e: int|
        0 <= s < g.stations.len() && 0 <= e < g.stations[s].connections.len()
            ==> (#[trigger] g.stations[s].connections[e]).to_station_i < g.stations.len()
}

/// Decides `graph_wf` for a graph read back from an archive, so that
/// callers can check the engines' precondition at run time.
#[verifier::loop_isolation(false)]
pub fn check_graph(all_connections: &AllConnections) -> (r: bool)
    ensures
        r == graph_wf(all_connections@),
{
    let ghost g = all_connections@;
    let n = all_connections.stations.len();
    let mut s: usize = 0;
    while s < n
        invariant
            s <= n,
            forall|s2: int, e: int|
                0 <= s2 < s && 0 <= e < g.stations[s2].connections.len()
                    ==> (#[trigger] g.stations[s2].connections[e]).to_station_i < n,
        decreases n - s,
    {
        let edges = &all_connections.stations[s].connections;
        let ne = edges.len();
        let mut e: usize = 0;
        while e < ne
            invariant
                e <= ne,
                s < n,
                ne == g.stations[s as int].connections.len(),
                forall|e2: int|
                    0 <= e2 < e ==> (#[trigger] g.stations[s as int].connections[e2]).to_station_i
                        < n,
            decreases ne - e,
        {
            if edges[e].to_station_i as usize >= n {
                proof {
                    assert(!graph_wf(g));
                }
                return false;
            }
            e += 1;
        }
        s += 1;
    }
    true
}

/// `path` is a walk in the graph and `ds` are the weights of its steps:
/// every step follows an edge of that weight.
pub open spec fn walk_ok(g: AllConnectionsView, path: Seq<u32>, ds: Seq<u32>) -> bool {
    &&& path.len() == ds.len() + 1
    &&& forall|i: int| 0 <= i < ds.len() ==> has_edge(g, path[i], path[i + 1], #[trigger] ds[i])
}

/// The total weight of a walk's steps.
pub open spec fn sum_durations(ds: Seq<u32>) -> int
    decreases ds.len(),
{
    if ds.len() == 0 {
        0
    } else {
        sum_durations(ds.drop_last()) + ds.last()
    }
}

/// Some walk from one of the origins reaches `v` with total weight `w`.
pub open spec fn has_walk(g: AllConnectionsView, origins: Seq<u32>, v: u32, w: int) -> bool {
    exists|path: Seq<u32>, ds: Seq<u32>|
        #![trigger walk_ok(g, path, ds)]
        walk_ok(g, path, ds) && origins.contains(path[0]) && path[path.len() - 1] == v
            && sum_durations(ds) == w
}

/// An origin reaches itself with weight zero.
pub proof fn lemma_walk_origin(g: AllConnectionsView, origins: Seq<u32>, j: int)
    requires
        0 <= j < origins.len(),
    ensures
        has_walk(g, origins, origins[j], 0),
{
    let path = seq![origins[j]];
    let ds = Seq::<u32>::empty();
    assert(walk_ok(g, path, ds));
    assert(origins.contains(path[0]));
}

/// A walk extends along an edge.
pub proof fn lemma_walk_extend(
    g: AllConnectionsView,
    origins: Seq<u32>,
    u: u32,
    v: u32,
    d: u32,
    w: int,
)
    requires
        has_walk(g, origins, u, w),
        has_edge(g, u, v, d),
    ensures
        has_walk(g, origins, v, w + d),
{
    let (path, ds) = choose|path: Seq<u32>, ds: Seq<u32>|
        #![trigger walk_ok(g, path, ds)]
        walk_ok(g, path, ds) && origins.contains(path[0]) && path[path.len() - 1] == u
            && sum_durations(ds) == w;
    let path2 = path.push(v);
    let ds2 = ds.push(d);
    assert(walk_ok(g, path2, ds2)) by {
        assert forall|i: int| 0 <= i < ds2.len() implies has_edge(
            g,
            path2[i],
            path2[i + 1],
            #[trigger] ds2[i],
        ) by {
            if i < ds.len() {
                assert(has_edge(g, path[i], path[i + 1], ds[i]));
            }
        }
    }
    assert(sum_durations(ds2) == w + d) by {
        assert(ds2.drop_last() =~= ds);
    }
    assert(path2[0] == path[0]);
}

/// What an unreached station costs in the termination measure: more than any
/// reached one.
pub open spec fn arrival_potential(o: Option<u32>) -> nat {
    match o {
        Some(t) => t as nat,
        None => (u32::MAX + 1) as nat,
    }
}

/// The sum of all stations' potentials: strictly falls with every
/// improvement, which bounds the engine's work.
pub open spec fn sum_potential(states: Seq<Option<u32>>) -> nat
    decreases states.len(),
{
    if states.len() == 0 {
        0
    } else {
        sum_potential(states.drop_last()) + arrival_potential(states.last())
    }
}

pub proof fn lemma_sum_potential_update(states: Seq<Option<u32>>, i: int, x: Option<u32>)
    requires
        0 <= i < states.len(),
    ensures
        sum_potential(states.update(i, x)) == sum_potential(states) - arrival_potential(states[i])
            + arrival_potential(x),
    decreases states.len(),
{
    let d = states.drop_last();
    if i == states.len() - 1 {
        assert(states.update(i, x).drop_last() =~= d);
        assert(states.update(i, x).last() == x);
    } else {
        lemma_sum_potential_update(d, i, x);
        assert(states.update(i, x).drop_last() =~= d.update(i, x));
        assert(states.update(i, x).last() == states.last());
    }
}

/// Fills the arrival table from the origins over the graph, sweeping a
/// bucket queue in time order. Every time it reports is the exact weight of
/// a walk from an origin, origins stay at zero, and entries only ever
/// improve.
#[verifier::loop_isolation(false)]
#[verifier::rlimit(100)]
pub fn find_optimal_paths_with_time_buckets(
    all_connections: &AllConnections,
    start_station_indices: &[u32],
    station_states: &mut Vec<Option<u32>>,
    chunk_pool: &mut ChunkedVectorPool<u32>,
)
    requires
        graph_wf(all_connections@),
        old(station_states)@.len() == all_connections@.stations.len(),
        forall|i: int|
            0 <= i < old(station_states)@.len() ==> (#[trigger] old(station_states)@[i]) is None,
        forall|j: int|
            0 <= j < start_station_indices@.len() ==> (#[trigger] start_station_indices@[j])
                < all_connections@.stations.len(),
        pool_wf(*old(chunk_pool)),
    ensures
        pool_wf(*final(chunk_pool)),
        final(station_states)@.len() == old(station_states)@.len(),
        forall|v: int|
            0 <= v < final(station_states)@.len() && (#[trigger] final(station_states)@[v]) is Some
                ==> has_walk(
                all_connections@,
                start_station_indices@,
                v as u32,
                final(station_states)@[v]->0 as int,
            ),
        forall|j: int|
            0 <= j < start_station_indices@.len() ==> final(station_states)@[(
            #[trigger] start_station_indices@[j]) as int] == Some(0u32),
        forall|v: u32, w: int|
            #[trigger] has_walk(all_connections@, start_station_indices@, v, w) && 0 <= w
                <= MAX_SECONDS ==> v < final(station_states)@.len() && final(station_states)@[
                v as int
            ] is Some && final(station_states)@[v as int]->0 <= w,
{
    let ghost g = all_connections@;
    let ghost origins = start_station_indices@;
    let n = station_states.len();

    let mut buckets: Vec<ChunkedVector<u32>> = Vec::new();
    let mut bi: usize = 0;
    while bi < BUCKET_COUNT as usize
        invariant
            bi <= BUCKET_COUNT as usize,
            buckets@.len() == bi,
            forall|b2: int| 0 <= b2 < bi ==> (#[trigger] buckets@[b2]).wf(),
            forall|b2: int| 0 <= b2 < bi ==> (#[trigger] buckets@[b2])@.len() == 0,
        decreases BUCKET_COUNT as usize - bi,
    {
        buckets.push(ChunkedVector::new());
        bi += 1;
    }

    let n_starts = start_station_indices.len();
    let mut j: usize = 0;
    while j < n_starts
        invariant
            j <= n_starts,
            station_states@.len() == n,
            pool_wf(*chunk_pool),
            buckets@.len() == BUCKET_COUNT as int,
            forall|b2: int| 0 <= b2 < buckets@.len() ==> (#[trigger] buckets@[b2]).wf(),
            forall|b2: int, k: int|
                0 <= b2 < buckets@.len() && 0 <= k < buckets@[b2]@.len() ==> {
                    &&& (#[trigger] buckets@[b2]@[k]) < n
                    &&& station_states@[buckets@[b2]@[k] as int] is Some
                },
            forall|v: int|
                0 <= v < n && (#[trigger] station_states@[v]) is Some ==> has_walk(
                    g,
                    origins,
                    v as u32,
                    station_states@[v]->0 as int,
                ),
            forall|j2: int|
                0 <= j2 < j ==> station_states@[(#[trigger] origins[j2]) as int] == Some(0u32),
            forall|v: int|
                0 <= v < n && (#[trigger] station_states@[v]) is Some ==> station_states@[v]
                    == Some(0u32),
            forall|u2: int|
                0 <= u2 < n && (#[trigger] station_states@[u2]) is Some ==> in_buckets(
                    buckets@,
                    0,
                    u2,
                ),
        decreases n_starts - j,
    {
        let ghost buckets_old = buckets@;
        let o = start_station_indices[j];
        station_states[o as usize] = Some(0);
        buckets[0].push(o, chunk_pool);
        proof {
            lemma_walk_origin(g, origins, j as int);
            assert forall|u2: int|
                0 <= u2 < n && (#[trigger] station_states@[u2]) is Some implies in_buckets(
                buckets@,
                0,
                u2,
            ) by {
                if u2 == o as int {
                    assert(buckets@[0]@[buckets@[0]@.len() - 1] as int == u2);
                } else {
                    let (b2, k) = choose|b2: int, k: int|
                        #![trigger buckets_old[b2]@[k]]
                        0 <= b2 < buckets_old.len() && 0 <= k < buckets_old[b2]@.len()
                            && buckets_old[b2]@[k] as int == u2;
                    assert(buckets@[b2]@[k] as int == u2);
                }
            }
        }
        j += 1;
    }

    let mut b: usize = 0;
    while b < BUCKET_COUNT as usize
        invariant
            b <= BUCKET_COUNT as usize,
            station_states@.len() == n,
            pool_wf(*chunk_pool),
            buckets@.len() == BUCKET_COUNT as int,
            forall|b2: int| 0 <= b2 < buckets@.len() ==> (#[trigger] buckets@[b2]).wf(),
            forall|b2: int, k: int|
                0 <= b2 < buckets@.len() && 0 <= k < buckets@[b2]@.len() ==> {
                    &&& (#[trigger] buckets@[b2]@[k]) < n
                    &&& station_states@[buckets@[b2]@[k] as int] is Some
                },
            forall|v: int|
                0 <= v < n && (#[trigger] station_states@[v]) is Some ==> has_walk(
                    g,
                    origins,
                    v as u32,
                    station_states@[v]->0 as int,
                ),
            forall|j2: int|
                0 <= j2 < origins.len() ==> station_states@[(#[trigger] origins[j2]) as int]
                    == Some(0u32),
            forall|u2: int|
                0 <= u2 < n ==> station_settled(g, station_states@, u2) || in_buckets(
                    buckets@,
                    b as int,
                    u2,
                ) || (station_states@[u2] is Some && station_states@[u2]->0 > MAX_SECONDS),
        decreases BUCKET_COUNT as usize - b,
    {
        while !buckets[b].is_empty()
            invariant
                station_states@.len() == n,
                pool_wf(*chunk_pool),
                buckets@.len() == BUCKET_COUNT as int,
                forall|b2: int| 0 <= b2 < buckets@.len() ==> (#[trigger] buckets@[b2]).wf(),
                forall|b2: int, k: int|
                    0 <= b2 < buckets@.len() && 0 <= k < buckets@[b2]@.len() ==> {
                        &&& (#[trigger] buckets@[b2]@[k]) < n
                        &&& station_states@[buckets@[b2]@[k] as int] is Some
                    },
                forall|v: int|
                    0 <= v < n && (#[trigger] station_states@[v]) is Some ==> has_walk(
                        g,
                        origins,
                        v as u32,
                        station_states@[v]->0 as int,
                    ),
                forall|j2: int|
                    0 <= j2 < origins.len() ==> station_states@[(#[trigger] origins[j2]) as int]
                        == Some(0u32),
                forall|u2: int|
                    0 <= u2 < n ==> station_settled(g, station_states@, u2) || in_buckets(
                        buckets@,
                        b as int,
                        u2,
                    ) || (station_states@[u2] is Some && station_states@[u2]->0 > MAX_SECONDS),
            decreases sum_potential(station_states@), buckets@[b as int]@.len(),
        {
            let ghost sum0 = sum_potential(station_states@);
            let ghost len0 = buckets@[b as int]@.len();
            let ghost buckets_before = buckets@;
            let u = match buckets[b].pop(chunk_pool) {
                Some(u) => u,
                None => {
                    proof {
                        assert(false);
                    }
                    0
                },
            };
            proof {
                assert forall|u2: int|
                    0 <= u2 < n && u2 != u as int implies station_settled(g, station_states@, u2)
                        || in_buckets(buckets@, b as int, u2) || (station_states@[u2] is Some
                        && station_states@[u2]->0 > MAX_SECONDS) by {
                    if !station_settled(g, station_states@, u2) && !(station_states@[u2] is Some
                        && station_states@[u2]->0 > MAX_SECONDS) {
                        assert(in_buckets(buckets_before, b as int, u2));
                        let (b2, k) = choose|b2: int, k: int|
                            #![trigger buckets_before[b2]@[k]]
                            b <= b2 < buckets_before.len() && 0 <= k < buckets_before[b2]@.len()
                                && buckets_before[b2]@[k] as int == u2;
                        assert(b <= b2 < buckets_before.len() && 0 <= k < buckets_before[
                            b2
                        ]@.len() && buckets_before[b2]@[k] as int == u2);
                        if b2 == b as int && k == buckets_before[b as int]@.len() - 1 {
                            assert(buckets_before[b as int]@.len() > 0);
                            assert(u == buckets_before[b as int]@.last());
                            assert(buckets_before[b2]@[k] as int == u2);
                            assert(false);
                        } else {
                            assert(buckets@[b2]@[k] as int == u2);
                        }
                    }
                }
            }
            let edges = &all_connections.stations[u as usize].connections;
            let ne = edges.len();
            let mut e: usize = 0;
            while e < ne
                invariant
                    e <= ne,
                    ne == g.stations[u as int].connections.len(),
                    station_states@.len() == n,
                    pool_wf(*chunk_pool),
                    buckets@.len() == BUCKET_COUNT as int,
                    forall|b2: int| 0 <= b2 < buckets@.len() ==> (#[trigger] buckets@[b2]).wf(),
                    forall|b2: int, k: int|
                        0 <= b2 < buckets@.len() && 0 <= k < buckets@[b2]@.len() ==> {
                            &&& (#[trigger] buckets@[b2]@[k]) < n
                            &&& station_states@[buckets@[b2]@[k] as int] is Some
                        },
                    forall|v: int|
                        0 <= v < n && (#[trigger] station_states@[v]) is Some ==> has_walk(
                            g,
                            origins,
                            v as u32,
                            station_states@[v]->0 as int,
                        ),
                    forall|j2: int|
                        0 <= j2 < origins.len() ==> station_states@[(
                        #[trigger] origins[j2]) as int] == Some(0u32),
                    station_states@[u as int] is Some,
                    sum_potential(station_states@) <= sum0,
                    sum_potential(station_states@) == sum0 ==> buckets@[b as int]@.len() < len0,
                    forall|u2: int|
                        0 <= u2 < n && u2 != u as int ==> station_settled(
                            g,
                            station_states@,
                            u2,
                        ) || in_buckets(buckets@, b as int, u2) || (station_states@[u2] is Some
                            && station_states@[u2]->0 > MAX_SECONDS),
                    forall|e2: int|
                        0 <= e2 < e ==> {
                            let c2 = #[trigger] g.stations[u as int].connections[e2];
                            station_states@[u as int]->0 + c2.duration > u32::MAX || (
                            station_states@[c2.to_station_i as int] is Some && station_states@[
                                c2.to_station_i as int
                            ]->0 <= station_states@[u as int]->0 + c2.duration)
                        },
                decreases ne - e,
            {
                let c = edges[e];
                let to = c.to_station_i;
                let arrival_u_now = match station_states[u as usize] {
                    Some(t) => t,
                    None => {
                        proof {
                            assert(false);
                        }
                        0
                    },
                };
                let t64: u64 = arrival_u_now as u64 + c.duration as u64;
                let cur = station_states[to as usize];
                let improved = match cur {
                    Some(a) => t64 < a as u64,
                    None => t64 <= u32::MAX as u64,
                };
                let ghost states_old = station_states@;
                let ghost buckets_old = buckets@;
                if improved {
                    let t32 = t64 as u32;
                    proof {
                        assert(has_edge(g, u, to, c.duration));
                        lemma_walk_extend(
                            g,
                            origins,
                            u,
                            to,
                            c.duration,
                            station_states@[u as int]->0 as int,
                        );
                        lemma_sum_potential_update(
                            station_states@,
                            to as int,
                            Some(t32),
                        );
                    }
                    station_states[to as usize] = Some(t32);
                    let tb64: u64 = t64 / (SECONDS_PER_BUCKET as u64);
                    let ghost to_queued_or_beyond: bool;
                    if tb64 < BUCKET_COUNT as u64 {
                        let tb0 = tb64 as usize;
                        // clamping keeps every pending entry ahead of the
                        // sweep; a target before the current bucket cannot
                        // occur, but the sweep does not depend on that
                        let tb = if tb0 < b {
                            b
                        } else {
                            tb0
                        };
                        buckets[tb].push(to, chunk_pool);
                        proof {
                            to_queued_or_beyond = true;
                            assert(buckets@[tb as int]@[buckets@[tb as int]@.len() - 1] as int
                                == to as int);
                            assert(in_buckets(buckets@, b as int, to as int));
                        }
                    } else {
                        proof {
                            to_queued_or_beyond = false;
                            assert(t64 >= (BUCKET_COUNT as u64) * (SECONDS_PER_BUCKET as u64))
                                by {
                                assert(t64 == (SECONDS_PER_BUCKET as u64) * (t64 / (
                                SECONDS_PER_BUCKET as u64)) + t64 % (SECONDS_PER_BUCKET as u64));
                            }
                            assert(station_states@[to as int]->0 > MAX_SECONDS);
                        }
                    }
                    proof {
                        assert(station_states@[u as int] == states_old[u as int]);
                        assert forall|u2: int|
                            0 <= u2 < n && u2 != u as int implies station_settled(
                            g,
                            station_states@,
                            u2,
                        ) || in_buckets(buckets@, b as int, u2) || (station_states@[u2] is Some
                            && station_states@[u2]->0 > MAX_SECONDS) by {
                            if u2 == to as int {
                                if !to_queued_or_beyond {
                                    assert(station_states@[u2]->0 > MAX_SECONDS);
                                }
                            } else if station_settled(g, states_old, u2) {
                                if station_states@[u2] is Some {
                                    let tu2 = station_states@[u2]->0;
                                    assert(states_old[u2] == station_states@[u2]);
                                    assert forall|e2: int|
                                        0 <= e2 < g.stations[u2].connections.len() implies ({
                                        let c2 = #[trigger] g.stations[u2].connections[e2];
                                        tu2 + c2.duration > u32::MAX || (station_states@[
                                            c2.to_station_i as int
                                        ] is Some && station_states@[c2.to_station_i as int]->0
                                            <= tu2 + c2.duration)
                                    }) by {
                                        let c2 = g.stations[u2].connections[e2];
                                        if c2.to_station_i as int == to as int {
                                            if tu2 + c2.duration <= u32::MAX {
                                                assert(states_old[to as int] is Some
                                                    && states_old[to as int]->0 <= tu2
                                                    + c2.duration);
                                                assert(station_states@[to as int]->0 == t64);
                                                assert(t64 < states_old[to as int]->0);
                                            }
                                        } else {
                                            assert(station_states@[c2.to_station_i as int]
                                                == states_old[c2.to_station_i as int]);
                                        }
                                    }
                                }
                                assert(station_settled(g, station_states@, u2));
                            } else if states_old[u2] is Some && states_old[u2]->0 > MAX_SECONDS {
                                assert(station_states@[u2] == states_old[u2]);
                            } else {
                                assert(in_buckets(buckets_old, b as int, u2));
                                let (b2, k) = choose|b2: int, k: int|
                                    #![trigger buckets_old[b2]@[k]]
                                    b <= b2 < buckets_old.len() && 0 <= k < buckets_old[b2]@.len()
                                        && buckets_old[b2]@[k] as int == u2;
                                assert(b <= b2 < buckets_old.len() && 0 <= k < buckets_old[
                                    b2
                                ]@.len() && buckets_old[b2]@[k] as int == u2);
                                assert(buckets@[b2]@[k] as int == u2);
                            }
                        }
                    }
                }
                e += 1;
                proof {
                    assert forall|e2: int|
                        0 <= e2 < e implies {
                        let c2 = #[trigger] g.stations[u as int].connections[e2];
                        station_states@[u as int]->0 + c2.duration > u32::MAX || (
                        station_states@[c2.to_station_i as int] is Some && station_states@[
                            c2.to_station_i as int
                        ]->0 <= station_states@[u as int]->0 + c2.duration)
                    } by {
                        let c2 = g.stations[u as int].connections[e2];
                        if e2 == e - 1 {
                            if improved {
                                assert(station_states@[to as int]->0 == t64);
                            }
                        } else {
                            if improved && c2.to_station_i as int == to as int {
                                if states_old[to as int] is Some {
                                    assert(station_states@[to as int]->0 <= states_old[
                                        to as int
                                    ]->0);
                                }
                            }
                        }
                    }
                }
            }
            proof {
                assert(station_settled(g, station_states@, u as int));
            }
        }
        proof {
            assert forall|u2: int|
                0 <= u2 < n implies station_settled(g, station_states@, u2) || in_buckets(
                buckets@,
                b + 1,
                u2,
            ) || (station_states@[u2] is Some && station_states@[u2]->0 > MAX_SECONDS) by {
                if !station_settled(g, station_states@, u2) && !(station_states@[u2] is Some
                    && station_states@[u2]->0 > MAX_SECONDS) {
                    assert(in_buckets(buckets@, b as int, u2));
                    let (b2, k) = choose|b2: int, k: int|
                        #![trigger buckets@[b2]@[k]]
                        b <= b2 < buckets@.len() && 0 <= k < buckets@[b2]@.len() && buckets@[
                            b2
                        ]@[k] as int == u2;
                    assert(buckets@[b as int]@.len() == 0);
                    assert(b2 != b as int);
                    assert(buckets@[b2]@[k] as int == u2);
                }
            }
        }
        b += 1;
    }
    proof {
        assert forall|v: u32, w: int|
            #[trigger] has_walk(g, origins, v, w) && 0 <= w <= MAX_SECONDS implies v
            < station_states@.len() && station_states@[v as int] is Some && station_states@[
            v as int
        ]->0 <= w by {
            assert forall|u2: int|
                0 <= u2 < n implies station_settled(g, station_states@, u2) || (station_states@[
                u2
            ] is Some && station_states@[u2]->0 > MAX_SECONDS) by {
                if in_buckets(buckets@, BUCKET_COUNT as int, u2) {
                    let (b2, k) = choose|b2: int, k: int|
                        #![trigger buckets@[b2]@[k]]
                        BUCKET_COUNT as int <= b2 < buckets@.len() && 0 <= k
                            < buckets@[b2]@.len() && buckets@[b2]@[k] as int == u2;
                    assert(false);
                }
            }
            let (path, ds) = choose|path: Seq<u32>, ds: Seq<u32>|
                #![trigger walk_ok(g, path, ds)]
                walk_ok(g, path, ds) && origins.contains(path[0]) && path[path.len() - 1] == v
                    && sum_durations(ds) == w;
            lemma_settled_lower_bound(g, origins, station_states@, path, ds, MAX_SECONDS as int);
        }
    }
}

/// Station `u` has a pending entry in one of the buckets from `b` on.
pub open spec fn in_buckets(
    buckets: Seq<crate::chunked::ChunkedVector<u32>>,
    b: int,
    u: int,
) -> bool {
    exists|b2: int, k: int|
        #![trigger buckets[b2]@[k]]
        b <= b2 < buckets.len() && 0 <= k < buckets[b2]@.len() && buckets[b2]@[k] as int == u
}

/// Station `u` is settled: every one of its edges has been relaxed against
/// its current arrival time, up to 32-bit range.
pub open spec fn station_settled(g: AllConnectionsView, states: Seq<Option<u32>>, u: int) -> bool {
    match states[u] {
        Some(tu) => forall|e: int|
            0 <= e < g.stations[u].connections.len() ==> {
                let c = #[trigger] g.stations[u].connections[e];
                tu + c.duration > u32::MAX || (states[c.to_station_i as int] is Some
                    && states[c.to_station_i as int]->0 <= tu + c.duration)
            },
        None => true,
    }
}

pub proof fn lemma_sum_durations_nonneg(ds: Seq<u32>)
    ensures
        sum_durations(ds) >= 0,
    decreases ds.len(),
{
    if ds.len() > 0 {
        lemma_sum_durations_nonneg(ds.drop_last());
    }
}

/// Once every station within the horizon is settled and the origins sit at
/// zero, no walk within the horizon beats the table: along any walk whose
/// weight stays under `bound`, the arrival at its end is at most the walk's
/// weight. This is the optimality direction: together with walk soundness it
/// makes the table the minimum over such walks.
pub proof fn lemma_settled_lower_bound(
    g: AllConnectionsView,
    origins: Seq<u32>,
    states: Seq<Option<u32>>,
    path: Seq<u32>,
    ds: Seq<u32>,
    bound: int,
)
    requires
        graph_wf(g),
        states.len() == g.stations.len(),
        forall|u: int|
            0 <= u < states.len() ==> station_settled(g, states, u) || (states[u] is Some
                && states[u]->0 > bound),
        forall|j: int| 0 <= j < origins.len() ==> (#[trigger] origins[j]) < states.len(),
        forall|j: int| 0 <= j < origins.len() ==> states[(#[trigger] origins[j]) as int] == Some(
            0u32,
        ),
        walk_ok(g, path, ds),
        origins.contains(path[0]),
        0 <= bound <= u32::MAX,
        sum_durations(ds) <= bound,
    ensures
        0 <= path[path.len() - 1] < states.len(),
        states[path[path.len() - 1] as int] is Some,
        states[path[path.len() - 1] as int]->0 <= sum_durations(ds),
    decreases path.len(),
{
    if path.len() == 1 {
        let j = choose|j: int| 0 <= j < origins.len() && origins[j] == path[0];
    } else {
        let prefix = path.drop_last();
        let dsp = ds.drop_last();
        assert(walk_ok(g, prefix, dsp)) by {
            assert(forall|i: int|
                0 <= i < dsp.len() ==> prefix[i] == path[i] && prefix[i + 1] == path[i + 1]
                    && #[trigger] dsp[i] == ds[i]);
        }
        assert(prefix[0] == path[0]);
        lemma_sum_durations_nonneg(dsp);
        assert(ds.last() >= 0);
        lemma_settled_lower_bound(g, origins, states, prefix, dsp, bound);
        let u = prefix[prefix.len() - 1];
        let v = path[path.len() - 1];
        let d = ds[ds.len() - 1];
        assert(has_edge(g, u, v, d)) by {
            assert(path[path.len() - 2] == prefix[prefix.len() - 1]);
            assert(has_edge(g, path[path.len() - 2], path[path.len() - 1], ds[ds.len() - 1]));
        }
        let tu = states[u as int]->0;
        let e = choose|e: int|
            0 <= e < g.stations[u as int].connections.len() && (#[trigger] g.stations[
                u as int
            ].connections[e]) == (crate::connections::ConnectionToStation {
                to_station_i: v,
                duration: d,
            });
        assert(states[u as int]->0 <= bound);
        assert(station_settled(g, states, u as int));
        assert(g.stations[u as int].connections[e].to_station_i == v);
        assert(tu + d <= sum_durations(ds));
    }
}

/// The reference engine: a plain priority queue worked off smallest time
/// first, with the same contract as the bucketed engine. Useful for
/// cross-checking the bucketed engine's output.
#[verifier::loop_isolation(false)]
#[verifier::rlimit(100)]
pub fn find_optimal_paths_with_queue(
    all_connections: &AllConnections,
    start_station_indices: &[u32],
    station_states: &mut Vec<Option<u32>>,
)
    requires
        graph_wf(all_connections@),
        old(station_states)@.len() == all_connections@.stations.len(),
        forall|i: int|
            0 <= i < old(station_states)@.len() ==> (#[trigger] old(station_states)@[i]) is None,
        forall|j: int|
            0 <= j < start_station_indices@.len() ==> (#[trigger] start_station_indices@[j])
                < all_connections@.stations.len(),
    ensures
        final(station_states)@.len() == old(station_states)@.len(),
        forall|v: int|
            0 <= v < final(station_states)@.len() && (#[trigger] final(station_states)@[v]) is Some
                ==> has_walk(
                all_connections@,
                start_station_indices@,
                v as u32,
                final(station_states)@[v]->0 as int,
            ),
        forall|j: int|
            0 <= j < start_station_indices@.len() ==> final(station_states)@[(
            #[trigger] start_station_indices@[j]) as int] == Some(0u32),
        forall|v: u32, w: int|
            #[trigger] has_walk(all_connections@, start_station_indices@, v, w) && 0 <= w
                <= u32::MAX ==> v < final(station_states)@.len() && final(station_states)@[
                v as int
            ] is Some && final(station_states)@[v as int]->0 <= w,
{
    let ghost g = all_connections@;
    let ghost origins = start_station_indices@;
    let n = station_states.len();
    let mut queue: Vec<(u32, u32)> = Vec::new();
    let n_starts = start_station_indices.len();
    let mut j: usize = 0;
    while j < n_starts
        invariant
            j <= n_starts,
            station_states@.len() == n,
            forall|k: int|
                0 <= k < queue@.len() ==> {
                    &&& (#[trigger] queue@[k]).1 < n
                    &&& station_states@[queue@[k].1 as int] is Some
                },
            forall|v: int|
                0 <= v < n && (#[trigger] station_states@[v]) is Some ==> has_walk(
                    g,
                    origins,
                    v as u32,
                    station_states@[v]->0 as int,
                ),
            forall|j2: int|
                0 <= j2 < j ==> station_states@[(#[trigger] origins[j2]) as int] == Some(0u32),
            forall|v: int|
                0 <= v < n && (#[trigger] station_states@[v]) is Some ==> station_states@[v]
                    == Some(0u32),
            forall|u2: int|
                0 <= u2 < n ==> station_settled(g, station_states@, u2) || exists|k: int|
                    0 <= k < queue@.len() && (#[trigger] queue@[k]).1 as int == u2,
        decreases n_starts - j,
    {
        let ghost queue_old = queue@;
        let ghost states_old = station_states@;
        let o = start_station_indices[j];
        station_states[o as usize] = Some(0);
        queue.push((0, o));
        proof {
            assert forall|u2: int|
                0 <= u2 < n implies station_settled(g, station_states@, u2) || exists|k: int|
                0 <= k < queue@.len() && (#[trigger] queue@[k]).1 as int == u2 by {
                if u2 == o as int {
                    assert(queue@[queue@.len() - 1].1 as int == u2);
                } else if station_settled(g, states_old, u2) {
                    if station_states@[u2] is Some {
                        let tu2 = station_states@[u2]->0;
                        assert(states_old[u2] == station_states@[u2]);
                        assert forall|e2: int|
                            0 <= e2 < g.stations[u2].connections.len() implies ({
                            let c2 = #[trigger] g.stations[u2].connections[e2];
                            tu2 + c2.duration > u32::MAX || (station_states@[
                                c2.to_station_i as int
                            ] is Some && station_states@[c2.to_station_i as int]->0 <= tu2
                                + c2.duration)
                        }) by {
                            let c2 = g.stations[u2].connections[e2];
                            if c2.to_station_i as int != o as int {
                                assert(station_states@[c2.to_station_i as int] == states_old[
                                    c2.to_station_i as int
                                ]);
                            }
                        }
                    }
                    assert(station_settled(g, station_states@, u2));
                } else {
                    let k = choose|k: int|
                        0 <= k < queue_old.len() && (#[trigger] queue_old[k]).1 as int == u2;
                    assert(queue@[k].1 as int == u2);
                }
            }
        }
        proof {
            lemma_walk_origin(g, origins, j as int);
        }
        j += 1;
    }
    while queue.len() > 0
        invariant
            station_states@.len() == n,
            forall|k: int|
                0 <= k < queue@.len() ==> {
                    &&& (#[trigger] queue@[k]).1 < n
                    &&& station_states@[queue@[k].1 as int] is Some
                },
            forall|v: int|
                0 <= v < n && (#[trigger] station_states@[v]) is Some ==> has_walk(
                    g,
                    origins,
                    v as u32,
                    station_states@[v]->0 as int,
                ),
            forall|j2: int|
                0 <= j2 < origins.len() ==> station_states@[(#[trigger] origins[j2]) as int]
                    == Some(0u32),
            forall|u2: int|
                0 <= u2 < n ==> station_settled(g, station_states@, u2) || exists|k: int|
                    0 <= k < queue@.len() && (#[trigger] queue@[k]).1 as int == u2,
        decreases sum_potential(station_states@), queue@.len(),
    {
        let ghost sum0 = sum_potential(station_states@);
        let ghost len0 = queue@.len();
        let mut best: usize = 0;
        let mut k: usize = 1;
        while k < queue.len()
            invariant
                best < queue@.len(),
                k <= queue@.len(),
            decreases queue@.len() - k,
        {
            if queue[k].0 < queue[best].0 {
                best = k;
            }
            k += 1;
        }
        let ghost queue_before = queue@;
        let (_t, u) = queue.swap_remove(best);
        proof {
            assert forall|u2: int|
                0 <= u2 < n && u2 != u as int implies station_settled(g, station_states@, u2)
                    || exists|k: int|
                    0 <= k < queue@.len() && (#[trigger] queue@[k]).1 as int == u2 by {
                if !station_settled(g, station_states@, u2) {
                    let k = choose|k: int|
                        0 <= k < queue_before.len() && (#[trigger] queue_before[k]).1 as int == u2;
                    if k == best as int {
                        assert(false);
                    } else if k == queue_before.len() - 1 {
                        assert(queue@[best as int].1 as int == u2);
                    } else {
                        assert(queue@[k].1 as int == u2);
                    }
                }
            }
        }
        let edges = &all_connections.stations[u as usize].connections;
        let ne = edges.len();
        let mut e: usize = 0;
        while e < ne
            invariant
                e <= ne,
                ne == g.stations[u as int].connections.len(),
                u < n,
                station_states@.len() == n,
                forall|k2: int|
                    0 <= k2 < queue@.len() ==> {
                        &&& (#[trigger] queue@[k2]).1 < n
                        &&& station_states@[queue@[k2].1 as int] is Some
                    },
                forall|v: int|
                    0 <= v < n && (#[trigger] station_states@[v]) is Some ==> has_walk(
                        g,
                        origins,
                        v as u32,
                        station_states@[v]->0 as int,
                    ),
                forall|j2: int|
                    0 <= j2 < origins.len() ==> station_states@[(#[trigger] origins[j2]) as int]
                        == Some(0u32),
                station_states@[u as int] is Some,
                sum_potential(station_states@) <= sum0,
                sum_potential(station_states@) == sum0 ==> queue@.len() < len0,
                forall|u2: int|
                    0 <= u2 < n && u2 != u as int ==> station_settled(g, station_states@, u2)
                        || exists|k: int|
                        0 <= k < queue@.len() && (#[trigger] queue@[k]).1 as int == u2,
                forall|e2: int|
                    0 <= e2 < e ==> {
                        let c2 = #[trigger] g.stations[u as int].connections[e2];
                        station_states@[u as int]->0 + c2.duration > u32::MAX || (station_states@[
                            c2.to_station_i as int
                        ] is Some && station_states@[c2.to_station_i as int]->0
                            <= station_states@[u as int]->0 + c2.duration)
                    },
            decreases ne - e,
        {
            let c = edges[e];
            let to = c.to_station_i;
            let arrival_u_now = match station_states[u as usize] {
                Some(t) => t,
                None => {
                    proof {
                        assert(false);
                    }
                    0
                },
            };
            let t64: u64 = arrival_u_now as u64 + c.duration as u64;
            let cur = station_states[to as usize];
            let improved = match cur {
                Some(a) => t64 < a as u64,
                None => t64 <= u32::MAX as u64,
            };
            let ghost states_old = station_states@;
            let ghost queue_old = queue@;
            if improved {
                let t32 = t64 as u32;
                proof {
                    assert(has_edge(g, u, to, c.duration));
                    lemma_walk_extend(
                        g,
                        origins,
                        u,
                        to,
                        c.duration,
                        station_states@[u as int]->0 as int,
                    );
                    lemma_sum_potential_update(station_states@, to as int, Some(t32));
                }
                station_states[to as usize] = Some(t32);
                queue.push((t32, to));
                proof {
                    assert(station_states@[u as int] == states_old[u as int]);
                    assert forall|u2: int|
                        0 <= u2 < n && u2 != u as int implies station_settled(
                        g,
                        station_states@,
                        u2,
                    ) || exists|k: int|
                        0 <= k < queue@.len() && (#[trigger] queue@[k]).1 as int == u2 by {
                        if u2 == to as int {
                            assert(queue@[queue@.len() - 1].1 as int == u2);
                        } else if station_settled(g, states_old, u2) {
                            if station_states@[u2] is Some {
                                let tu2 = station_states@[u2]->0;
                                assert(states_old[u2] == station_states@[u2]);
                                assert forall|e2: int|
                                    0 <= e2 < g.stations[u2].connections.len() implies ({
                                    let c2 = #[trigger] g.stations[u2].connections[e2];
                                    tu2 + c2.duration > u32::MAX || (station_states@[
                                        c2.to_station_i as int
                                    ] is Some && station_states@[c2.to_station_i as int]->0
                                        <= tu2 + c2.duration)
                                }) by {
                                    let c2 = g.stations[u2].connections[e2];
                                    if c2.to_station_i as int == to as int {
                                        if tu2 + c2.duration <= u32::MAX {
                                            assert(states_old[to as int] is Some
                                                && states_old[to as int]->0 <= tu2
                                                + c2.duration);
                                            assert(station_states@[to as int]->0 == t64);
                                            assert(t64 < states_old[to as int]->0);
                                        }
                                    } else {
                                        assert(station_states@[c2.to_station_i as int]
                                            == states_old[c2.to_station_i as int]);
                                    }
                                }
                            }
                            assert(station_settled(g, station_states@, u2));
                        } else {
                            let k = choose|k: int|
                                0 <= k < queue_old.len() && (#[trigger] queue_old[k]).1
                                    == u2 as u32;
                            assert(queue@[k].1 as int == u2);
                        }
                    }
                }
            }
            e += 1;
            proof {
                assert forall|e2: int|
                    0 <= e2 < e implies {
                    let c2 = #[trigger] g.stations[u as int].connections[e2];
                    station_states@[u as int]->0 + c2.duration > u32::MAX || (station_states@[
                        c2.to_station_i as int
                    ] is Some && station_states@[c2.to_station_i as int]->0
                        <= station_states@[u as int]->0 + c2.duration)
                } by {
                    let c2 = g.stations[u as int].connections[e2];
                    if e2 == e - 1 {
                        if improved {
                            assert(station_states@[to as int]->0 == t64);
                        }
                    } else {
                        if improved && c2.to_station_i == to {
                            if states_old[to as int] is Some {
                                assert(station_states@[to as int]->0 <= states_old[
                                    to as int
                                ]->0);
                            }
                        }
                    }
                }
            }
        }
        proof {
            assert(station_settled(g, station_states@, u as int));
            assert forall|u2: int|
                0 <= u2 < n implies station_settled(g, station_states@, u2) || exists|k: int|
                0 <= k < queue@.len() && (#[trigger] queue@[k]).1 as int == u2 by {
            }
        }
    }
    proof {
        assert forall|v: u32, w: int|
            #[trigger] has_walk(g, origins, v, w) && 0 <= w <= u32::MAX implies v
            < station_states@.len() && station_states@[v as int] is Some && station_states@[
            v as int
        ]->0 <= w by {
            let (path, ds) = choose|path: Seq<u32>, ds: Seq<u32>|
                #![trigger walk_ok(g, path, ds)]
                walk_ok(g, path, ds) && origins.contains(path[0]) && path[path.len() - 1] == v
                    && sum_durations(ds) == w;
            assert forall|u2: int| 0 <= u2 < n implies station_settled(
                g,
                station_states@,
                u2,
            ) by {
            }
            lemma_settled_lower_bound(g, origins, station_states@, path, ds, u32::MAX as int);
        }
    }
}

} // verus!
