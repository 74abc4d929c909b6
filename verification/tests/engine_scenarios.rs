use trip_atlas::chunked::ChunkedVectorPool;
use trip_atlas::connections::{AllConnections, ConnectionsFromStation, ConnectionToStation};
use trip_atlas::engine::{find_optimal_paths_with_queue, find_optimal_paths_with_time_buckets};

fn graph(edges: &[(u32, u32, u32)], n: usize) -> AllConnections {
    let mut stations: Vec<ConnectionsFromStation> = (0..n)
        .map(|i| ConnectionsFromStation { main_stop_i: i as u32, connections: vec![] })
        .collect();
    for &(u, v, d) in edges {
        stations[u as usize]
            .connections
            .push(ConnectionToStation { to_station_i: v, duration: d });
    }
    AllConnections { stations }
}

fn run_buckets(all: &AllConnections, starts: &[u32]) -> Vec<Option<u32>> {
    let mut states = vec![None; all.stations.len()];
    let mut pool: ChunkedVectorPool<u32> = ChunkedVectorPool::new();
    find_optimal_paths_with_time_buckets(all, starts, &mut states, &mut pool);
    states
}

fn run_queue(all: &AllConnections, starts: &[u32]) -> Vec<Option<u32>> {
    let mut states = vec![None; all.stations.len()];
    find_optimal_paths_with_queue(all, starts, &mut states);
    states
}

#[test]
fn single_trip_arrivals() {
    // edges from the single-trip scenario: A->B 60, B->C 55
    let all = graph(&[(0, 1, 60), (1, 2, 55)], 3);
    let states = run_buckets(&all, &[0]);
    assert_eq!(states, vec![Some(0), Some(60), Some(115)]);
    assert_eq!(run_queue(&all, &[0]), states);
}

#[test]
fn aliased_stations_arrivals() {
    let all = graph(&[(0, 1, 30)], 2);
    let states = run_buckets(&all, &[0]);
    assert_eq!(states, vec![Some(0), Some(30)]);
}

#[test]
fn bucket_boundary() {
    // seconds per bucket is 30: B lands in bucket 0, C and D in bucket 1
    let all = graph(&[(0, 1, 29), (0, 2, 30), (0, 3, 31)], 4);
    let states = run_buckets(&all, &[0]);
    assert_eq!(states, vec![Some(0), Some(29), Some(30), Some(31)]);
    assert_eq!(run_queue(&all, &[0]), states);
}

#[test]
fn within_bucket_re_relaxation() {
    // the indirect path completed inside bucket 0 must beat the direct edge
    let all = graph(&[(0, 1, 10), (1, 2, 5), (0, 2, 20)], 3);
    let states = run_buckets(&all, &[0]);
    assert_eq!(states[2], Some(15));
    assert_eq!(run_queue(&all, &[0]), states);
}

#[test]
fn unreached_station_stays_none() {
    let all = graph(&[(0, 1, 10)], 3);
    let states = run_buckets(&all, &[0]);
    assert_eq!(states, vec![Some(0), Some(10), None]);
    assert_eq!(run_queue(&all, &[0]), states);
}

#[test]
fn multiple_origins_take_the_best() {
    let all = graph(&[(0, 2, 100), (1, 2, 40), (2, 3, 10)], 4);
    let states = run_buckets(&all, &[0, 1]);
    assert_eq!(states, vec![Some(0), Some(0), Some(40), Some(50)]);
    assert_eq!(run_queue(&all, &[0, 1]), states);
}

#[test]
fn empty_origin_set_reaches_nothing() {
    let all = graph(&[(0, 1, 10)], 2);
    let states = run_buckets(&all, &[]);
    assert_eq!(states, vec![None, None]);
}

#[test]
fn cycles_terminate() {
    let all = graph(&[(0, 1, 7), (1, 0, 7), (1, 1, 3)], 2);
    let states = run_buckets(&all, &[0]);
    assert_eq!(states, vec![Some(0), Some(7)]);
    assert_eq!(run_queue(&all, &[0]), states);
}

#[test]
fn engines_agree_on_random_graphs() {
    // deterministic linear congruential generator
    let mut seed: u64 = 0x2545_f491_4f6c_dd1d;
    let mut next = move || {
        seed = seed.wrapping_mul(6364136223846793005).wrapping_add(1442695040888963407);
        (seed >> 33) as u32
    };
    for case in 0..20 {
        let n = 2 + (next() % 14) as usize;
        let m = (next() % 40) as usize;
        let mut edges = vec![];
        for _ in 0..m {
            let u = next() % n as u32;
            let v = next() % n as u32;
            // positive weights below ten bucket widths
            let d = 1 + next() % 299;
            edges.push((u, v, d));
        }
        let all = graph(&edges, n);
        let k = 1 + (next() % 3) as usize;
        let mut starts = vec![];
        for _ in 0..k {
            let s = next() % n as u32;
            if !starts.contains(&s) {
                starts.push(s);
            }
        }
        let b = run_buckets(&all, &starts);
        let q = run_queue(&all, &starts);
        assert_eq!(b, q, "case {} diverged: edges {:?} starts {:?}", case, edges, starts);
    }
}
