//! The archive store: schema-level encoders and decoders.
//!
//! An archive is a header — a magic number and a schema tag — followed by the
//! record tables of the schema. As in `codec`, the format is pinned down by
//! spec parsers, encoders guarantee that what they append parses back to the
//! value written, and decoders return exactly what the spec parser denotes.
//! Together these give the round trip: deserializing a serialized value
//! yields a value with the same view.

use vstd::prelude::*;

use crate::codec::{
    dec_bool, dec_i16, dec_str, dec_u16, dec_u32, dec_u64, enc_bool, enc_i16, enc_str, enc_u16,
    enc_u32, enc_u64, lemma_parse_bool_prefix, lemma_parse_i16_prefix, lemma_parse_str_prefix,
    lemma_parse_u16_prefix, lemma_parse_u32_prefix, lemma_parse_u64_prefix,
    lemma_starts_with_trans, seq_starts_with, spec_parse_bool, spec_parse_i16, spec_parse_str,
    spec_parse_u16, spec_parse_u32, spec_parse_u64,
};
use crate::connections::{
    AllConnections, AllConnectionsView, ConnectionsFromStation, ConnectionToStation, StationView,
};
use crate::gtfs::{
    opt_str_view, AgencyView, CalendarDateView, CalendarView, GtfsAgency, GtfsCalendar,
    GtfsCalendarDate, GtfsData, GtfsDataView, GtfsExceptionType, GtfsRoute, GtfsRouteType,
    GtfsStop, GtfsStopTime, GtfsTrip, RouteView, StopTimeView, StopView, TripView,
};

verus! {

/// First bytes of every archive.
pub const ARCHIVE_MAGIC: u32 = 0x54414131;

/// Schema tag of the normalized-feed archive.
pub const GTFS_SCHEMA_TAG: u32 = 0x47544653;

/// Schema tag of the direct-connection-graph archive.
pub const CONNECTIONS_SCHEMA_TAG: u32 = 0x434f4e4e;

/// Why a buffer was rejected.
#[derive(Debug, Clone, Copy, PartialEq, Eq, Structural)]
pub enum ArchiveError {
    /// The buffer does not begin with the magic number and the expected
    /// schema tag; the file belongs to another schema or another store.
    SchemaMismatch,
    /// The header is right but the records behind it are not a valid
    /// encoding.
    Malformed,
}

// ---------------------------------------------------------------------------
// Options: a presence byte, then the payload
// ---------------------------------------------------------------------------

pub open spec fn spec_parse_opt_u32(b: Seq<u8>, pos: int) -> Option<(Option<u32>, int)> {
    match spec_parse_bool(b, pos) {
        Some((present, p)) => {
            if present {
                match spec_parse_u32(b, p) {
                    Some((x, p2)) => Some((Some(x), p2)),
                    None => None,
                }
            } else {
                Some((None, p))
            }
        },
        None => None,
    }
}

pub proof fn lemma_parse_opt_u32_prefix(b: Seq<u8>, b2: Seq<u8>, pos: int)
    requires
        spec_parse_opt_u32(b, pos) is Some,
        seq_starts_with(b2, b),
    ensures
        spec_parse_opt_u32(b2, pos) == spec_parse_opt_u32(b, pos),
{
    lemma_parse_bool_prefix(b, b2, pos);
    let (present, p) = spec_parse_bool(b, pos)->Some_0;
    if present {
        lemma_parse_u32_prefix(b, b2, p);
    }
}

pub fn enc_opt_u32(out: &mut Vec<u8>, x: &Option<u32>)
    ensures
        final(out)@.len() > old(out)@.len(),
        seq_starts_with(final(out)@, old(out)@),
        spec_parse_opt_u32(final(out)@, old(out)@.len() as int) == Some(
            (*x, final(out)@.len() as int),
        ),
{
    match x {
        Some(v) => {
            enc_bool(out, true);
            let ghost mid = out@;
            enc_u32(out, *v);
            proof {
                lemma_parse_bool_prefix(mid, out@, old(out)@.len() as int);
                lemma_starts_with_trans(out@, mid, old(out)@);
            }
        },
        None => {
            enc_bool(out, false);
        },
    }
}

pub fn dec_opt_u32(b: &[u8], pos: usize) -> (r: Option<(Option<u32>, usize)>)
    ensures
        match r {
            Some((x, p)) => spec_parse_opt_u32(b@, pos as int) == Some((x, p as int)),
            None => spec_parse_opt_u32(b@, pos as int) is None,
        },
{
    match dec_bool(b, pos) {
        Some((present, p)) => {
            if present {
                match dec_u32(b, p) {
                    Some((x, p2)) => Some((Some(x), p2)),
                    None => None,
                }
            } else {
                Some((None, p))
            }
        },
        None => None,
    }
}

pub open spec fn spec_parse_opt_u64(b: Seq<u8>, pos: int) -> Option<(Option<u64>, int)> {
    match spec_parse_bool(b, pos) {
        Some((present, p)) => {
            if present {
                match spec_parse_u64(b, p) {
                    Some((x, p2)) => Some((Some(x), p2)),
                    None => None,
                }
            } else {
                Some((None, p))
            }
        },
        None => None,
    }
}

pub proof fn lemma_parse_opt_u64_prefix(b: Seq<u8>, b2: Seq<u8>, pos: int)
    requires
        spec_parse_opt_u64(b, pos) is Some,
        seq_starts_with(b2, b),
    ensures
        spec_parse_opt_u64(b2, pos) == spec_parse_opt_u64(b, pos),
{
    lemma_parse_bool_prefix(b, b2, pos);
    let (present, p) = spec_parse_bool(b, pos)->Some_0;
    if present {
        lemma_parse_u64_prefix(b, b2, p);
    }
}

pub fn enc_opt_u64(out: &mut Vec<u8>, x: &Option<u64>)
    ensures
        final(out)@.len() > old(out)@.len(),
        seq_starts_with(final(out)@, old(out)@),
        spec_parse_opt_u64(final(out)@, old(out)@.len() as int) == Some(
            (*x, final(out)@.len() as int),
        ),
{
    match x {
        Some(v) => {
            enc_bool(out, true);
            let ghost mid = out@;
            enc_u64(out, *v);
            proof {
                lemma_parse_bool_prefix(mid, out@, old(out)@.len() as int);
                lemma_starts_with_trans(out@, mid, old(out)@);
            }
        },
        None => {
            enc_bool(out, false);
        },
    }
}

pub fn dec_opt_u64(b: &[u8], pos: usize) -> (r: Option<(Option<u64>, usize)>)
    ensures
        match r {
            Some((x, p)) => spec_parse_opt_u64(b@, pos as int) == Some((x, p as int)),
            None => spec_parse_opt_u64(b@, pos as int) is None,
        },
{
    match dec_bool(b, pos) {
        Some((present, p)) => {
            if present {
                match dec_u64(b, p) {
                    Some((x, p2)) => Some((Some(x), p2)),
                    None => None,
                }
            } else {
                Some((None, p))
            }
        },
        None => None,
    }
}

pub open spec fn spec_parse_opt_str(b: Seq<u8>, pos: int) -> Option<(Option<Seq<char>>, int)> {
    match spec_parse_bool(b, pos) {
        Some((present, p)) => {
            if present {
                match spec_parse_str(b, p) {
                    Some((s, p2)) => Some((Some(s), p2)),
                    None => None,
                }
            } else {
                Some((None, p))
            }
        },
        None => None,
    }
}

pub proof fn lemma_parse_opt_str_prefix(b: Seq<u8>, b2: Seq<u8>, pos: int)
    requires
        spec_parse_opt_str(b, pos) is Some,
        seq_starts_with(b2, b),
    ensures
        spec_parse_opt_str(b2, pos) == spec_parse_opt_str(b, pos),
{
    lemma_parse_bool_prefix(b, b2, pos);
    let (present, p) = spec_parse_bool(b, pos)->Some_0;
    if present {
        lemma_parse_str_prefix(b, b2, p);
    }
}

pub fn enc_opt_str(out: &mut Vec<u8>, x: &Option<String>)
    ensures
        final(out)@.len() > old(out)@.len(),
        seq_starts_with(final(out)@, old(out)@),
        spec_parse_opt_str(final(out)@, old(out)@.len() as int) == Some(
            (opt_str_view(*x), final(out)@.len() as int),
        ),
{
    match x {
        Some(s) => {
            enc_bool(out, true);
            let ghost mid = out@;
            enc_str(out, s.as_str());
            proof {
                lemma_parse_bool_prefix(mid, out@, old(out)@.len() as int);
                lemma_starts_with_trans(out@, mid, old(out)@);
            }
        },
        None => {
            enc_bool(out, false);
        },
    }
}

pub fn dec_opt_str(b: &[u8], pos: usize) -> (r: Option<(Option<String>, usize)>)
    ensures
        match r {
            Some((x, p)) => spec_parse_opt_str(b@, pos as int) == Some(
                (opt_str_view(x), p as int),
            ),
            None => spec_parse_opt_str(b@, pos as int) is None,
        },
{
    match dec_bool(b, pos) {
        Some((present, p)) => {
            if present {
                match dec_str(b, p) {
                    Some((s, p2)) => Some((Some(s), p2)),
                    None => None,
                }
            } else {
                Some((None, p))
            }
        },
        None => None,
    }
}

// ---------------------------------------------------------------------------
// Enums
// ---------------------------------------------------------------------------

/// The byte tag of each route type; `Other` carries its code behind the tag.
pub open spec fn route_type_tag(rt: GtfsRouteType) -> u8 {
    match rt {
        GtfsRouteType::Tramway => 0,
        GtfsRouteType::Subway => 1,
        GtfsRouteType::Rail => 2,
        GtfsRouteType::Bus => 3,
        GtfsRouteType::Ferry => 4,
        GtfsRouteType::CableCar => 5,
        GtfsRouteType::Gondola => 6,
        GtfsRouteType::Funicular => 7,
        GtfsRouteType::Coach => 8,
        GtfsRouteType::Air => 9,
        GtfsRouteType::Taxi => 10,
        GtfsRouteType::Other(_) => 11,
    }
}

pub open spec fn spec_parse_route_type(b: Seq<u8>, pos: int) -> Option<(GtfsRouteType, int)> {
    if 0 <= pos && pos + 1 <= b.len() {
        let tag = b[pos];
        if tag == 0u8 {
            Some((GtfsRouteType::Tramway, pos + 1))
        } else if tag == 1u8 {
            Some((GtfsRouteType::Subway, pos + 1))
        } else if tag == 2u8 {
            Some((GtfsRouteType::Rail, pos + 1))
        } else if tag == 3u8 {
            Some((GtfsRouteType::Bus, pos + 1))
        } else if tag == 4u8 {
            Some((GtfsRouteType::Ferry, pos + 1))
        } else if tag == 5u8 {
            Some((GtfsRouteType::CableCar, pos + 1))
        } else if tag == 6u8 {
            Some((GtfsRouteType::Gondola, pos + 1))
        } else if tag == 7u8 {
            Some((GtfsRouteType::Funicular, pos + 1))
        } else if tag == 8u8 {
            Some((GtfsRouteType::Coach, pos + 1))
        } else if tag == 9u8 {
            Some((GtfsRouteType::Air, pos + 1))
        } else if tag == 10u8 {
            Some((GtfsRouteType::Taxi, pos + 1))
        } else if tag == 11u8 {
            match spec_parse_i16(b, pos + 1) {
                Some((code, p2)) => Some((GtfsRouteType::Other(code), p2)),
                None => None,
            }
        } else {
            None
        }
    } else {
        None
    }
}

pub proof fn lemma_parse_route_type_prefix(b: Seq<u8>, b2: Seq<u8>, pos: int)
    requires
        spec_parse_route_type(b, pos) is Some,
        seq_starts_with(b2, b),
    ensures
        spec_parse_route_type(b2, pos) == spec_parse_route_type(b, pos),
{
    assert(forall|i: int| 0 <= i < b.len() ==> b2[i] == b2.subrange(0, b.len() as int)[i]);
    if b[pos] == 11u8 {
        lemma_parse_i16_prefix(b, b2, pos + 1);
    }
}

pub fn enc_route_type(out: &mut Vec<u8>, rt: &GtfsRouteType)
    ensures
        final(out)@.len() > old(out)@.len(),
        seq_starts_with(final(out)@, old(out)@),
        spec_parse_route_type(final(out)@, old(out)@.len() as int) == Some(
            (*rt, final(out)@.len() as int),
        ),
{
    match rt {
        GtfsRouteType::Tramway => { push_tag(out, 0) },
        GtfsRouteType::Subway => { push_tag(out, 1) },
        GtfsRouteType::Rail => { push_tag(out, 2) },
        GtfsRouteType::Bus => { push_tag(out, 3) },
        GtfsRouteType::Ferry => { push_tag(out, 4) },
        GtfsRouteType::CableCar => { push_tag(out, 5) },
        GtfsRouteType::Gondola => { push_tag(out, 6) },
        GtfsRouteType::Funicular => { push_tag(out, 7) },
        GtfsRouteType::Coach => { push_tag(out, 8) },
        GtfsRouteType::Air => { push_tag(out, 9) },
        GtfsRouteType::Taxi => { push_tag(out, 10) },
        GtfsRouteType::Other(code) => {
            push_tag(out, 11);
            let ghost mid = out@;
            enc_i16(out, *code);
            proof {
                assert(out@[old(out)@.len() as int] == mid[old(out)@.len() as int]);
                lemma_starts_with_trans(out@, mid, old(out)@);
            }
        },
    }
}

/// Appends one byte.
fn push_tag(out: &mut Vec<u8>, tag: u8)
    ensures
        final(out)@ == old(out)@.push(tag),
        final(out)@.len() == old(out)@.len() + 1,
        seq_starts_with(final(out)@, old(out)@),
        final(out)@[old(out)@.len() as int] == tag,
{
    out.push(tag);
    proof {
        assert(out@.subrange(0, old(out)@.len() as int) =~= old(out)@);
    }
}

pub fn dec_route_type(b: &[u8], pos: usize) -> (r: Option<(GtfsRouteType, usize)>)
    ensures
        match r {
            Some((x, p)) => spec_parse_route_type(b@, pos as int) == Some((x, p as int)),
            None => spec_parse_route_type(b@, pos as int) is None,
        },
{
    if pos < b.len() {
        let tag = b[pos];
        if tag == 0 {
            Some((GtfsRouteType::Tramway, pos + 1))
        } else if tag == 1 {
            Some((GtfsRouteType::Subway, pos + 1))
        } else if tag == 2 {
            Some((GtfsRouteType::Rail, pos + 1))
        } else if tag == 3 {
            Some((GtfsRouteType::Bus, pos + 1))
        } else if tag == 4 {
            Some((GtfsRouteType::Ferry, pos + 1))
        } else if tag == 5 {
            Some((GtfsRouteType::CableCar, pos + 1))
        } else if tag == 6 {
            Some((GtfsRouteType::Gondola, pos + 1))
        } else if tag == 7 {
            Some((GtfsRouteType::Funicular, pos + 1))
        } else if tag == 8 {
            Some((GtfsRouteType::Coach, pos + 1))
        } else if tag == 9 {
            Some((GtfsRouteType::Air, pos + 1))
        } else if tag == 10 {
            Some((GtfsRouteType::Taxi, pos + 1))
        } else if tag == 11 {
            match dec_i16(b, pos + 1) {
                Some((code, p2)) => Some((GtfsRouteType::Other(code), p2)),
                None => None,
            }
        } else {
            None
        }
    } else {
        None
    }
}

pub open spec fn spec_parse_exception_type(b: Seq<u8>, pos: int) -> Option<(
    GtfsExceptionType,
    int,
)> {
    match spec_parse_bool(b, pos) {
        Some((v, p)) => Some(
            (
                if v {
                    GtfsExceptionType::Deleted
                } else {
                    GtfsExceptionType::Added
                },
                p,
            ),
        ),
        None => None,
    }
}

pub proof fn lemma_parse_exception_type_prefix(b: Seq<u8>, b2: Seq<u8>, pos: int)
    requires
        spec_parse_exception_type(b, pos) is Some,
        seq_starts_with(b2, b),
    ensures
        spec_parse_exception_type(b2, pos) == spec_parse_exception_type(b, pos),
{
    lemma_parse_bool_prefix(b, b2, pos);
}

pub fn enc_exception_type(out: &mut Vec<u8>, x: &GtfsExceptionType)
    ensures
        final(out)@.len() > old(out)@.len(),
        seq_starts_with(final(out)@, old(out)@),
        spec_parse_exception_type(final(out)@, old(out)@.len() as int) == Some(
            (*x, final(out)@.len() as int),
        ),
{
    match x {
        GtfsExceptionType::Added => enc_bool(out, false),
        GtfsExceptionType::Deleted => enc_bool(out, true),
    }
}

pub fn dec_exception_type(b: &[u8], pos: usize) -> (r: Option<(GtfsExceptionType, usize)>)
    ensures
        match r {
            Some((x, p)) => spec_parse_exception_type(b@, pos as int) == Some((x, p as int)),
            None => spec_parse_exception_type(b@, pos as int) is None,
        },
{
    match dec_bool(b, pos) {
        Some((v, p)) => Some(
            (
                if v {
                    GtfsExceptionType::Deleted
                } else {
                    GtfsExceptionType::Added
                },
                p,
            ),
        ),
        None => None,
    }
}

// ---------------------------------------------------------------------------
// Repeated elements: `n` records in a row, for any record parser
// ---------------------------------------------------------------------------

/// `n` values of `f` in a row starting at `pos`.
pub open spec fn spec_parse_elems<T>(
    b: Seq<u8>,
    pos: int,
    n: nat,
    f: spec_fn(Seq<u8>, int) -> Option<(T, int)>,
) -> Option<(Seq<T>, int)>
    decreases n,
{
    if n == 0 {
        Some((Seq::empty(), pos))
    } else {
        match f(b, pos) {
            Some((x, p)) => match spec_parse_elems(b, p, (n - 1) as nat, f) {
                Some((rest, p2)) => Some((rest.insert(0, x), p2)),
                None => None,
            },
            None => None,
        }
    }
}

/// A parser whose verdict does not change when bytes are appended behind the
/// buffer it accepted.
pub open spec fn parser_prefix_stable<T>(f: spec_fn(Seq<u8>, int) -> Option<(T, int)>) -> bool {
    forall|bb: Seq<u8>, bb2: Seq<u8>, p: int|
        #![trigger f(bb, p), seq_starts_with(bb2, bb)]
        f(bb, p) is Some && seq_starts_with(bb2, bb) ==> f(bb2, p) == f(bb, p)
}

pub proof fn lemma_parse_elems_prefix<T>(
    b: Seq<u8>,
    b2: Seq<u8>,
    pos: int,
    n: nat,
    f: spec_fn(Seq<u8>, int) -> Option<(T, int)>,
)
    requires
        parser_prefix_stable(f),
        spec_parse_elems(b, pos, n, f) is Some,
        seq_starts_with(b2, b),
    ensures
        spec_parse_elems(b2, pos, n, f) == spec_parse_elems(b, pos, n, f),
    decreases n,
{
    if n > 0 {
        let (x, p) = f(b, pos)->Some_0;
        assert(f(b2, pos) == f(b, pos));
        lemma_parse_elems_prefix(b, b2, p, (n - 1) as nat, f);
    }
}

/// Parsing one more element continues exactly where parsing `n` elements
/// stopped.
pub proof fn lemma_parse_elems_snoc<T>(
    b: Seq<u8>,
    pos: int,
    n: nat,
    f: spec_fn(Seq<u8>, int) -> Option<(T, int)>,
)
    requires
        spec_parse_elems(b, pos, n, f) is Some,
    ensures
        spec_parse_elems(b, pos, n + 1, f) == (match f(
            b,
            spec_parse_elems(b, pos, n, f)->Some_0.1,
        ) {
            Some((x, p)) => Some((spec_parse_elems(b, pos, n, f)->Some_0.0.push(x), p)),
            None => None,
        }),
    decreases n,
{
    let (xs0, pe) = spec_parse_elems(b, pos, n, f)->Some_0;
    if n == 0 {
        match f(b, pos) {
            Some((x, p)) => {
                assert(spec_parse_elems(b, p, 0, f) == Some((Seq::<T>::empty(), p)));
                assert(Seq::<T>::empty().insert(0, x) =~= xs0.push(x));
            },
            None => {},
        }
    } else {
        let (x0, p0) = f(b, pos)->Some_0;
        let (rest, pr) = spec_parse_elems(b, p0, (n - 1) as nat, f)->Some_0;
        lemma_parse_elems_snoc(b, p0, (n - 1) as nat, f);
        match f(b, pe) {
            Some((y, py)) => {
                assert(spec_parse_elems(b, p0, n, f) == Some((rest.push(y), py)));
                assert((rest.push(y)).insert(0, x0) =~= (rest.insert(0, x0)).push(y));
            },
            None => {},
        }
    }
}

/// Once an element fails to parse, asking for any larger count fails too.
pub proof fn lemma_parse_elems_fail<T>(
    b: Seq<u8>,
    pos: int,
    i: nat,
    n: nat,
    f: spec_fn(Seq<u8>, int) -> Option<(T, int)>,
)
    requires
        spec_parse_elems(b, pos, i, f) is Some,
        f(b, spec_parse_elems(b, pos, i, f)->Some_0.1) is None,
        i < n,
    ensures
        spec_parse_elems(b, pos, n, f) is None,
    decreases i,
{
    if i == 0 {
    } else {
        let (x0, p0) = f(b, pos)->Some_0;
        lemma_parse_elems_fail(b, p0, (i - 1) as nat, (n - 1) as nat, f);
    }
}

// ---------------------------------------------------------------------------
// Stops
// ---------------------------------------------------------------------------

pub open spec fn spec_parse_stop(b: Seq<u8>, pos: int) -> Option<(StopView, int)> {
    match spec_parse_str(b, pos) {
        Some((id, p1)) => match spec_parse_opt_str(b, p1) {
            Some((code, p2)) => match spec_parse_opt_str(b, p2) {
                Some((name, p3)) => match spec_parse_opt_str(b, p3) {
                    Some((parent, p4)) => match spec_parse_opt_u64(b, p4) {
                        Some((lat, p5)) => match spec_parse_opt_u64(b, p5) {
                            Some((lon, p6)) => Some(
                                (
                                    StopView {
                                        id,
                                        code,
                                        name,
                                        parent_station_id: parent,
                                        latitude_bits: lat,
                                        longitude_bits: lon,
                                    },
                                    p6,
                                ),
                            ),
                            None => None,
                        },
                        None => None,
                    },
                    None => None,
                },
                None => None,
            },
            None => None,
        },
        None => None,
    }
}

pub proof fn lemma_parse_stop_prefix(b: Seq<u8>, b2: Seq<u8>, pos: int)
    requires
        spec_parse_stop(b, pos) is Some,
        seq_starts_with(b2, b),
    ensures
        spec_parse_stop(b2, pos) == spec_parse_stop(b, pos),
{
    lemma_parse_str_prefix(b, b2, pos);
    let p1 = spec_parse_str(b, pos)->Some_0.1;
    lemma_parse_opt_str_prefix(b, b2, p1);
    let p2 = spec_parse_opt_str(b, p1)->Some_0.1;
    lemma_parse_opt_str_prefix(b, b2, p2);
    let p3 = spec_parse_opt_str(b, p2)->Some_0.1;
    lemma_parse_opt_str_prefix(b, b2, p3);
    let p4 = spec_parse_opt_str(b, p3)->Some_0.1;
    lemma_parse_opt_u64_prefix(b, b2, p4);
    let p5 = spec_parse_opt_u64(b, p4)->Some_0.1;
    lemma_parse_opt_u64_prefix(b, b2, p5);
}

pub open spec fn stop_parser() -> spec_fn(Seq<u8>, int) -> Option<(StopView, int)> {
    |b: Seq<u8>, pos: int| spec_parse_stop(b, pos)
}

pub proof fn lemma_stop_parser_stable()
    ensures
        parser_prefix_stable(stop_parser()),
{
    let f = stop_parser();
    assert forall|bb: Seq<u8>, bb2: Seq<u8>, p: int|
        #![trigger f(bb, p), seq_starts_with(bb2, bb)]
        f(bb, p) is Some && seq_starts_with(bb2, bb) implies f(bb2, p) == f(bb, p) by {
        lemma_parse_stop_prefix(bb, bb2, p);
    }
}

pub fn enc_stop(out: &mut Vec<u8>, x: &GtfsStop)
    ensures
        final(out)@.len() > old(out)@.len(),
        seq_starts_with(final(out)@, old(out)@),
        spec_parse_stop(final(out)@, old(out)@.len() as int) == Some(
            (x@, final(out)@.len() as int),
        ),
{
    let ghost pos0 = out@.len() as int;
    enc_str(out, x.id.as_str());
    let ghost b1 = out@;
    let ghost p1 = out@.len() as int;
    enc_opt_str(out, &x.code);
    let ghost b2 = out@;
    let ghost p2 = out@.len() as int;
    enc_opt_str(out, &x.name);
    let ghost b3 = out@;
    let ghost p3 = out@.len() as int;
    enc_opt_str(out, &x.parent_station_id);
    let ghost b4 = out@;
    let ghost p4 = out@.len() as int;
    enc_opt_u64(out, &x.latitude_bits);
    let ghost b5 = out@;
    let ghost p5 = out@.len() as int;
    enc_opt_u64(out, &x.longitude_bits);
    proof {
        lemma_starts_with_trans(out@, b5, b4);
        lemma_starts_with_trans(out@, b4, b3);
        lemma_starts_with_trans(out@, b3, b2);
        lemma_starts_with_trans(out@, b2, b1);
        lemma_starts_with_trans(out@, b1, old(out)@);
        lemma_parse_str_prefix(b1, out@, pos0);
        lemma_parse_opt_str_prefix(b2, out@, p1);
        lemma_parse_opt_str_prefix(b3, out@, p2);
        lemma_parse_opt_str_prefix(b4, out@, p3);
        lemma_parse_opt_u64_prefix(b5, out@, p4);
    }
}

pub fn dec_stop(b: &[u8], pos: usize) -> (r: Option<(GtfsStop, usize)>)
    ensures
        match r {
            Some((x, p)) => {
                &&& spec_parse_stop(b@, pos as int) is Some
                &&& x@ == spec_parse_stop(b@, pos as int)->Some_0.0
                &&& p as int == spec_parse_stop(b@, pos as int)->Some_0.1
            },
            None => spec_parse_stop(b@, pos as int) is None,
        },
{
    let (id, p1) = match dec_str(b, pos) {
        Some(v) => v,
        None => {
            return None;
        },
    };
    let (code, p2) = match dec_opt_str(b, p1) {
        Some(v) => v,
        None => {
            return None;
        },
    };
    let (name, p3) = match dec_opt_str(b, p2) {
        Some(v) => v,
        None => {
            return None;
        },
    };
    let (parent, p4) = match dec_opt_str(b, p3) {
        Some(v) => v,
        None => {
            return None;
        },
    };
    let (lat, p5) = match dec_opt_u64(b, p4) {
        Some(v) => v,
        None => {
            return None;
        },
    };
    let (lon, p6) = match dec_opt_u64(b, p5) {
        Some(v) => v,
        None => {
            return None;
        },
    };
    Some(
        (
            GtfsStop {
                id,
                code,
                name,
                parent_station_id: parent,
                latitude_bits: lat,
                longitude_bits: lon,
            },
            p6,
        ),
    )
}

pub open spec fn spec_parse_stops(b: Seq<u8>, pos: int) -> Option<(Seq<StopView>, int)> {
    match spec_parse_u64(b, pos) {
        Some((n, p)) => spec_parse_elems(b, p, n as nat, stop_parser()),
        None => None,
    }
}

pub proof fn lemma_parse_stops_prefix(b: Seq<u8>, b2: Seq<u8>, pos: int)
    requires
        spec_parse_stops(b, pos) is Some,
        seq_starts_with(b2, b),
    ensures
        spec_parse_stops(b2, pos) == spec_parse_stops(b, pos),
{
    lemma_parse_u64_prefix(b, b2, pos);
    let (n, p) = spec_parse_u64(b, pos)->Some_0;
    lemma_stop_parser_stable();
    lemma_parse_elems_prefix(b, b2, p, n as nat, stop_parser());
}

pub fn enc_stops(out: &mut Vec<u8>, xs: &Vec<GtfsStop>)
    ensures
        final(out)@.len() > old(out)@.len(),
        seq_starts_with(final(out)@, old(out)@),
        spec_parse_stops(final(out)@, old(out)@.len() as int) == Some(
            (xs@.map_values(|s: GtfsStop| s@), final(out)@.len() as int),
        ),
{
    let n = xs.len();
    enc_u64(out, n as u64);
    let ghost b0 = out@;
    let ghost p0 = out@.len() as int;
    proof {
        assert(out@.subrange(0, out@.len() as int) =~= out@);
    }
    let mut i: usize = 0;
    while i < n
        invariant
            i <= n,
            n == xs@.len(),
            p0 == b0.len(),
            seq_starts_with(out@, b0),
            spec_parse_elems(out@, p0, i as nat, stop_parser()) == Some(
                (xs@.take(i as int).map_values(|s: GtfsStop| s@), out@.len() as int),
            ),
        decreases n - i,
    {
        let ghost prev = out@;
        enc_stop(out, &xs[i]);
        proof {
            lemma_starts_with_trans(out@, prev, b0);
            lemma_stop_parser_stable();
            lemma_parse_elems_prefix(prev, out@, p0, i as nat, stop_parser());
            lemma_parse_elems_snoc(out@, p0, i as nat, stop_parser());
            assert(stop_parser()(out@, prev.len() as int) == spec_parse_stop(
                out@,
                prev.len() as int,
            ));
            assert(xs@.take(i as int).map_values(|s: GtfsStop| s@).push(xs@[i as int]@) =~= xs@.take(
                i + 1,
            ).map_values(|s: GtfsStop| s@));
        }
        i += 1;
    }
    proof {
        assert(xs@.take(n as int) =~= xs@);
        lemma_parse_u64_prefix(b0, out@, old(out)@.len() as int);
        lemma_starts_with_trans(out@, b0, old(out)@);
        assert((n as u64) as nat == n as nat);
    }
}

pub fn dec_stops(b: &[u8], pos: usize) -> (r: Option<(Vec<GtfsStop>, usize)>)
    ensures
        match r {
            Some((xs, p)) => {
                &&& spec_parse_stops(b@, pos as int) is Some
                &&& xs@.map_values(|s: GtfsStop| s@) == spec_parse_stops(b@, pos as int)->Some_0.0
                &&& p as int == spec_parse_stops(b@, pos as int)->Some_0.1
            },
            None => spec_parse_stops(b@, pos as int) is None,
        },
{
    let (n, p) = match dec_u64(b, pos) {
        Some(v) => v,
        None => {
            return None;
        },
    };
    let mut xs: Vec<GtfsStop> = Vec::new();
    let mut cur = p;
    let mut i: u64 = 0;
    proof {
        assert(xs@.map_values(|s: GtfsStop| s@) =~= Seq::<StopView>::empty());
    }
    while i < n
        invariant
            i <= n,
            spec_parse_elems(b@, p as int, i as nat, stop_parser()) == Some(
                (xs@.map_values(|s: GtfsStop| s@), cur as int),
            ),
            spec_parse_u64(b@, pos as int) == Some((n, p as int)),
        decreases n - i,
    {
        match dec_stop(b, cur) {
            Some((x, p2)) => {
                proof {
                    lemma_parse_elems_snoc(b@, p as int, i as nat, stop_parser());
                    assert(stop_parser()(b@, cur as int) == spec_parse_stop(b@, cur as int));
                    assert(xs@.map_values(|s: GtfsStop| s@).push(x@) =~= xs@.push(x).map_values(
                        |s: GtfsStop| s@,
                    ));
                }
                xs.push(x);
                cur = p2;
                i = i + 1;
            },
            None => {
                proof {
                    assert(stop_parser()(b@, cur as int) == spec_parse_stop(b@, cur as int));
                    lemma_parse_elems_fail(b@, p as int, i as nat, n as nat, stop_parser());
                }
                return None;
            },
        }
    }
    Some((xs, cur))
}

// ---------------------------------------------------------------------------
// Connection edges
// ---------------------------------------------------------------------------


pub open spec fn spec_parse_connection(b: Seq<u8>, pos: int) -> Option<(ConnectionToStation, int)> {
    match spec_parse_u32(b, pos) {
        Some((v0, p1)) =>         match spec_parse_u32(b, p1) {
            Some((v1, p2)) => Some((ConnectionToStation { to_station_i: v0, duration: v1 }, p2)),
            None => None,
        },
        None => None,
    }
}

pub proof fn lemma_parse_connection_prefix(b: Seq<u8>, b2: Seq<u8>, pos: int)
    requires
        spec_parse_connection(b, pos) is Some,
        seq_starts_with(b2, b),
    ensures
        spec_parse_connection(b2, pos) == spec_parse_connection(b, pos),
{
    lemma_parse_u32_prefix(b, b2, pos);
    let p1 = spec_parse_u32(b, pos)->Some_0.1;
    lemma_parse_u32_prefix(b, b2, p1);
}

pub open spec fn connection_parser() -> spec_fn(Seq<u8>, int) -> Option<(ConnectionToStation, int)> {
    |b: Seq<u8>, pos: int| spec_parse_connection(b, pos)
}

pub proof fn lemma_connection_parser_stable()
    ensures
        parser_prefix_stable(connection_parser()),
{
    let f = connection_parser();
    assert forall|bb: Seq<u8>, bb2: Seq<u8>, p: int|
        #![trigger f(bb, p), seq_starts_with(bb2, bb)]
        f(bb, p) is Some && seq_starts_with(bb2, bb) implies f(bb2, p) == f(bb, p) by {
        lemma_parse_connection_prefix(bb, bb2, p);
    }
}

pub fn enc_connection(out: &mut Vec<u8>, x: &ConnectionToStation)
    ensures
        final(out)@.len() > old(out)@.len(),
        seq_starts_with(final(out)@, old(out)@),
        spec_parse_connection(final(out)@, old(out)@.len() as int) == Some(
            (*x, final(out)@.len() as int),
        ),
{
    enc_u32(out, x.to_station_i);
    let ghost b1 = out@;
    let ghost p1 = out@.len() as int;
    enc_u32(out, x.duration);
    proof {
        lemma_starts_with_trans(out@, b1, old(out)@);
        lemma_parse_u32_prefix(b1, out@, old(out)@.len() as int);
    }
}

pub fn dec_connection(b: &[u8], pos: usize) -> (r: Option<(ConnectionToStation, usize)>)
    ensures
        match r {
            Some((x, p)) => {
                &&& spec_parse_connection(b@, pos as int) is Some
                &&& x == spec_parse_connection(b@, pos as int)->Some_0.0
                &&& p as int == spec_parse_connection(b@, pos as int)->Some_0.1
            },
            None => spec_parse_connection(b@, pos as int) is None,
        },
{
    let (v0, p1) = match dec_u32(b, pos) {
        Some(v) => v,
        None => {
            return None;
        },
    };
    let (v1, p2) = match dec_u32(b, p1) {
        Some(v) => v,
        None => {
            return None;
        },
    };
    Some((ConnectionToStation { to_station_i: v0, duration: v1 }, p2))
}


pub open spec fn spec_parse_connections(b: Seq<u8>, pos: int) -> Option<(Seq<ConnectionToStation>, int)> {
    match spec_parse_u64(b, pos) {
        Some((n, p)) => spec_parse_elems(b, p, n as nat, connection_parser()),
        None => None,
    }
}

pub proof fn lemma_parse_connections_prefix(b: Seq<u8>, b2: Seq<u8>, pos: int)
    requires
        spec_parse_connections(b, pos) is Some,
        seq_starts_with(b2, b),
    ensures
        spec_parse_connections(b2, pos) == spec_parse_connections(b, pos),
{
    lemma_parse_u64_prefix(b, b2, pos);
    let (n, p) = spec_parse_u64(b, pos)->Some_0;
    lemma_connection_parser_stable();
    lemma_parse_elems_prefix(b, b2, p, n as nat, connection_parser());
}

pub fn enc_connections(out: &mut Vec<u8>, xs: &Vec<ConnectionToStation>)
    ensures
        final(out)@.len() > old(out)@.len(),
        seq_starts_with(final(out)@, old(out)@),
        spec_parse_connections(final(out)@, old(out)@.len() as int) == Some(
            (xs@, final(out)@.len() as int),
        ),
{
    let n = xs.len();
    enc_u64(out, n as u64);
    let ghost b0 = out@;
    let ghost p0 = out@.len() as int;
    proof {
        assert(out@.subrange(0, out@.len() as int) =~= out@);
    }
    let mut i: usize = 0;
    while i < n
        invariant
            i <= n,
            n == xs@.len(),
            p0 == b0.len(),
            seq_starts_with(out@, b0),
            spec_parse_elems(out@, p0, i as nat, connection_parser()) == Some(
                (xs@.take(i as int), out@.len() as int),
            ),
        decreases n - i,
    {
        let ghost prev = out@;
        enc_connection(out, &xs[i]);
        proof {
            lemma_starts_with_trans(out@, prev, b0);
            lemma_connection_parser_stable();
            lemma_parse_elems_prefix(prev, out@, p0, i as nat, connection_parser());
            lemma_parse_elems_snoc(out@, p0, i as nat, connection_parser());
            assert(connection_parser()(out@, prev.len() as int) == spec_parse_connection(
                out@,
                prev.len() as int,
            ));
            assert(xs@.take(i as int).push(xs@[i as int]) =~= xs@.take(i + 1));
        }
        i += 1;
    }
    proof {
        assert(xs@.take(n as int) =~= xs@);
        lemma_parse_u64_prefix(b0, out@, old(out)@.len() as int);
        lemma_starts_with_trans(out@, b0, old(out)@);
        assert((n as u64) as nat == n as nat);
    }
}

pub fn dec_connections(b: &[u8], pos: usize) -> (r: Option<(Vec<ConnectionToStation>, usize)>)
    ensures
        match r {
            Some((xs, p)) => {
                &&& spec_parse_connections(b@, pos as int) is Some
                &&& xs@ == spec_parse_connections(b@, pos as int)->Some_0.0
                &&& p as int == spec_parse_connections(b@, pos as int)->Some_0.1
            },
            None => spec_parse_connections(b@, pos as int) is None,
        },
{
    let (n, p) = match dec_u64(b, pos) {
        Some(v) => v,
        None => {
            return None;
        },
    };
    let mut xs: Vec<ConnectionToStation> = Vec::new();
    let mut cur = p;
    let mut i: u64 = 0;
    proof {
    }
    while i < n
        invariant
            i <= n,
            spec_parse_elems(b@, p as int, i as nat, connection_parser()) == Some(
                (xs@, cur as int),
            ),
            spec_parse_u64(b@, pos as int) == Some((n, p as int)),
        decreases n - i,
    {
        match dec_connection(b, cur) {
            Some((x, p2)) => {
                proof {
                    lemma_parse_elems_snoc(b@, p as int, i as nat, connection_parser());
                    assert(connection_parser()(b@, cur as int) == spec_parse_connection(b@, cur as int));
                }
                xs.push(x);
                cur = p2;
                i = i + 1;
            },
            None => {
                proof {
                    assert(connection_parser()(b@, cur as int) == spec_parse_connection(b@, cur as int));
                    lemma_parse_elems_fail(b@, p as int, i as nat, n as nat, connection_parser());
                }
                return None;
            },
        }
    }
    Some((xs, cur))
}

// ---------------------------------------------------------------------------
// Stations
// ---------------------------------------------------------------------------

pub open spec fn spec_parse_station(b: Seq<u8>, pos: int) -> Option<(StationView, int)> {
    match spec_parse_u32(b, pos) {
        Some((v0, p1)) => match spec_parse_connections(b, p1) {
            Some((v1, p2)) => Some((StationView { main_stop_i: v0, connections: v1 }, p2)),
            None => None,
        },
        None => None,
    }
}

pub proof fn lemma_parse_station_prefix(b: Seq<u8>, b2: Seq<u8>, pos: int)
    requires
        spec_parse_station(b, pos) is Some,
        seq_starts_with(b2, b),
    ensures
        spec_parse_station(b2, pos) == spec_parse_station(b, pos),
{
    lemma_parse_u32_prefix(b, b2, pos);
    let p1 = spec_parse_u32(b, pos)->Some_0.1;
    lemma_parse_connections_prefix(b, b2, p1);
}

pub open spec fn station_parser() -> spec_fn(Seq<u8>, int) -> Option<(StationView, int)> {
    |b: Seq<u8>, pos: int| spec_parse_station(b, pos)
}

pub proof fn lemma_station_parser_stable()
    ensures
        parser_prefix_stable(station_parser()),
{
    let f = station_parser();
    assert forall|bb: Seq<u8>, bb2: Seq<u8>, p: int|
        #![trigger f(bb, p), seq_starts_with(bb2, bb)]
        f(bb, p) is Some && seq_starts_with(bb2, bb) implies f(bb2, p) == f(bb, p) by {
        lemma_parse_station_prefix(bb, bb2, p);
    }
}

pub fn enc_station(out: &mut Vec<u8>, x: &ConnectionsFromStation)
    ensures
        final(out)@.len() > old(out)@.len(),
        seq_starts_with(final(out)@, old(out)@),
        spec_parse_station(final(out)@, old(out)@.len() as int) == Some(
            (x@, final(out)@.len() as int),
        ),
{
    enc_u32(out, x.main_stop_i);
    let ghost b1 = out@;
    let ghost p1 = out@.len() as int;
    enc_connections(out, &x.connections);
    proof {
        lemma_starts_with_trans(out@, b1, old(out)@);
        lemma_parse_u32_prefix(b1, out@, old(out)@.len() as int);
    }
}

pub fn dec_station(b: &[u8], pos: usize) -> (r: Option<(ConnectionsFromStation, usize)>)
    ensures
        match r {
            Some((x, p)) => {
                &&& spec_parse_station(b@, pos as int) is Some
                &&& x@ == spec_parse_station(b@, pos as int)->Some_0.0
                &&& p as int == spec_parse_station(b@, pos as int)->Some_0.1
            },
            None => spec_parse_station(b@, pos as int) is None,
        },
{
    let (v0, p1) = match dec_u32(b, pos) {
        Some(v) => v,
        None => {
            return None;
        },
    };
    let (v1, p2) = match dec_connections(b, p1) {
        Some(v) => v,
        None => {
            return None;
        },
    };
    Some((ConnectionsFromStation { main_stop_i: v0, connections: v1 }, p2))
}

pub open spec fn spec_parse_stations(b: Seq<u8>, pos: int) -> Option<(Seq<StationView>, int)> {
    match spec_parse_u64(b, pos) {
        Some((n, p)) => spec_parse_elems(b, p, n as nat, station_parser()),
        None => None,
    }
}

pub proof fn lemma_parse_stations_prefix(b: Seq<u8>, b2: Seq<u8>, pos: int)
    requires
        spec_parse_stations(b, pos) is Some,
        seq_starts_with(b2, b),
    ensures
        spec_parse_stations(b2, pos) == spec_parse_stations(b, pos),
{
    lemma_parse_u64_prefix(b, b2, pos);
    let (n, p) = spec_parse_u64(b, pos)->Some_0;
    lemma_station_parser_stable();
    lemma_parse_elems_prefix(b, b2, p, n as nat, station_parser());
}

pub fn enc_stations(out: &mut Vec<u8>, xs: &Vec<ConnectionsFromStation>)
    ensures
        final(out)@.len() > old(out)@.len(),
        seq_starts_with(final(out)@, old(out)@),
        spec_parse_stations(final(out)@, old(out)@.len() as int) == Some(
            (xs@.map_values(|s: ConnectionsFromStation| s@), final(out)@.len() as int),
        ),
{
    let n = xs.len();
    enc_u64(out, n as u64);
    let ghost b0 = out@;
    let ghost p0 = out@.len() as int;
    proof {
        assert(out@.subrange(0, out@.len() as int) =~= out@);
    }
    let mut i: usize = 0;
    while i < n
        invariant
            i <= n,
            n == xs@.len(),
            p0 == b0.len(),
            seq_starts_with(out@, b0),
            spec_parse_elems(out@, p0, i as nat, station_parser()) == Some(
                (xs@.take(i as int).map_values(|s: ConnectionsFromStation| s@), out@.len() as int),
            ),
        decreases n - i,
    {
        let ghost prev = out@;
        enc_station(out, &xs[i]);
        proof {
            lemma_starts_with_trans(out@, prev, b0);
            lemma_station_parser_stable();
            lemma_parse_elems_prefix(prev, out@, p0, i as nat, station_parser());
            lemma_parse_elems_snoc(out@, p0, i as nat, station_parser());
            assert(station_parser()(out@, prev.len() as int) == spec_parse_station(
                out@,
                prev.len() as int,
            ));
            assert(xs@.take(i as int).map_values(|s: ConnectionsFromStation| s@).push(xs@[i as int]@) =~= xs@.take(
                i + 1,
            ).map_values(|s: ConnectionsFromStation| s@));
        }
        i += 1;
    }
    proof {
        assert(xs@.take(n as int) =~= xs@);
        lemma_parse_u64_prefix(b0, out@, old(out)@.len() as int);
        lemma_starts_with_trans(out@, b0, old(out)@);
        assert((n as u64) as nat == n as nat);
    }
}

pub fn dec_stations(b: &[u8], pos: usize) -> (r: Option<(Vec<ConnectionsFromStation>, usize)>)
    ensures
        match r {
            Some((xs, p)) => {
                &&& spec_parse_stations(b@, pos as int) is Some
                &&& xs@.map_values(|s: ConnectionsFromStation| s@) == spec_parse_stations(b@, pos as int)->Some_0.0
                &&& p as int == spec_parse_stations(b@, pos as int)->Some_0.1
            },
            None => spec_parse_stations(b@, pos as int) is None,
        },
{
    let (n, p) = match dec_u64(b, pos) {
        Some(v) => v,
        None => {
            return None;
        },
    };
    let mut xs: Vec<ConnectionsFromStation> = Vec::new();
    let mut cur = p;
    let mut i: u64 = 0;
    proof {
        assert(xs@.map_values(|s: ConnectionsFromStation| s@) =~= Seq::<StationView>::empty());
    }
    while i < n
        invariant
            i <= n,
            spec_parse_elems(b@, p as int, i as nat, station_parser()) == Some(
                (xs@.map_values(|s: ConnectionsFromStation| s@), cur as int),
            ),
            spec_parse_u64(b@, pos as int) == Some((n, p as int)),
        decreases n - i,
    {
        match dec_station(b, cur) {
            Some((x, p2)) => {
                proof {
                    lemma_parse_elems_snoc(b@, p as int, i as nat, station_parser());
                    assert(station_parser()(b@, cur as int) == spec_parse_station(b@, cur as int));
                    assert(xs@.map_values(|s: ConnectionsFromStation| s@).push(x@) =~= xs@.push(x).map_values(
                        |s: ConnectionsFromStation| s@,
                    ));
                }
                xs.push(x);
                cur = p2;
                i = i + 1;
            },
            None => {
                proof {
                    assert(station_parser()(b@, cur as int) == spec_parse_station(b@, cur as int));
                    lemma_parse_elems_fail(b@, p as int, i as nat, n as nat, station_parser());
                }
                return None;
            },
        }
    }
    Some((xs, cur))
}

// ---------------------------------------------------------------------------
// Stop times
// ---------------------------------------------------------------------------


pub open spec fn spec_parse_stop_time(b: Seq<u8>, pos: int) -> Option<(StopTimeView, int)> {
    match spec_parse_str(b, pos) {
        Some((v0, p1)) =>         match spec_parse_opt_u32(b, p1) {
            Some((v1, p2)) =>             match spec_parse_opt_u32(b, p2) {
                Some((v2, p3)) =>                 match spec_parse_str(b, p3) {
                    Some((v3, p4)) =>                     match spec_parse_u16(b, p4) {
                        Some((v4, p5)) => Some((StopTimeView { trip_id: v0, arrival_time: v1, departure_time: v2, stop_id: v3, stop_sequence: v4 }, p5)),
                        None => None,
                    },
                    None => None,
                },
                None => None,
            },
            None => None,
        },
        None => None,
    }
}

pub proof fn lemma_parse_stop_time_prefix(b: Seq<u8>, b2: Seq<u8>, pos: int)
    requires
        spec_parse_stop_time(b, pos) is Some,
        seq_starts_with(b2, b),
    ensures
        spec_parse_stop_time(b2, pos) == spec_parse_stop_time(b, pos),
{
    lemma_parse_str_prefix(b, b2, pos);
    let p1 = spec_parse_str(b, pos)->Some_0.1;
    lemma_parse_opt_u32_prefix(b, b2, p1);
    let p2 = spec_parse_opt_u32(b, p1)->Some_0.1;
    lemma_parse_opt_u32_prefix(b, b2, p2);
    let p3 = spec_parse_opt_u32(b, p2)->Some_0.1;
    lemma_parse_str_prefix(b, b2, p3);
    let p4 = spec_parse_str(b, p3)->Some_0.1;
    lemma_parse_u16_prefix(b, b2, p4);
}

pub open spec fn stop_time_parser() -> spec_fn(Seq<u8>, int) -> Option<(StopTimeView, int)> {
    |b: Seq<u8>, pos: int| spec_parse_stop_time(b, pos)
}

pub proof fn lemma_stop_time_parser_stable()
    ensures
        parser_prefix_stable(stop_time_parser()),
{
    let f = stop_time_parser();
    assert forall|bb: Seq<u8>, bb2: Seq<u8>, p: int|
        #![trigger f(bb, p), seq_starts_with(bb2, bb)]
        f(bb, p) is Some && seq_starts_with(bb2, bb) implies f(bb2, p) == f(bb, p) by {
        lemma_parse_stop_time_prefix(bb, bb2, p);
    }
}

pub fn enc_stop_time(out: &mut Vec<u8>, x: &GtfsStopTime)
    ensures
        final(out)@.len() > old(out)@.len(),
        seq_starts_with(final(out)@, old(out)@),
        spec_parse_stop_time(final(out)@, old(out)@.len() as int) == Some(
            (x@, final(out)@.len() as int),
        ),
{
    enc_str(out, x.trip_id.as_str());
    let ghost b1 = out@;
    let ghost p1 = out@.len() as int;
    enc_opt_u32(out, &x.arrival_time);
    let ghost b2 = out@;
    let ghost p2 = out@.len() as int;
    enc_opt_u32(out, &x.departure_time);
    let ghost b3 = out@;
    let ghost p3 = out@.len() as int;
    enc_str(out, x.stop_id.as_str());
    let ghost b4 = out@;
    let ghost p4 = out@.len() as int;
    enc_u16(out, x.stop_sequence);
    proof {
        lemma_starts_with_trans(out@, b4, b3);
        lemma_starts_with_trans(out@, b3, b2);
        lemma_starts_with_trans(out@, b2, b1);
        lemma_starts_with_trans(out@, b1, old(out)@);
        lemma_parse_str_prefix(b1, out@, old(out)@.len() as int);
        lemma_parse_opt_u32_prefix(b2, out@, p1);
        lemma_parse_opt_u32_prefix(b3, out@, p2);
        lemma_parse_str_prefix(b4, out@, p3);
    }
}

pub fn dec_stop_time(b: &[u8], pos: usize) -> (r: Option<(GtfsStopTime, usize)>)
    ensures
        match r {
            Some((x, p)) => {
                &&& spec_parse_stop_time(b@, pos as int) is Some
                &&& x@ == spec_parse_stop_time(b@, pos as int)->Some_0.0
                &&& p as int == spec_parse_stop_time(b@, pos as int)->Some_0.1
            },
            None => spec_parse_stop_time(b@, pos as int) is None,
        },
{
    let (v0, p1) = match dec_str(b, pos) {
        Some(v) => v,
        None => {
            return None;
        },
    };
    let (v1, p2) = match dec_opt_u32(b, p1) {
        Some(v) => v,
        None => {
            return None;
        },
    };
    let (v2, p3) = match dec_opt_u32(b, p2) {
        Some(v) => v,
        None => {
            return None;
        },
    };
    let (v3, p4) = match dec_str(b, p3) {
        Some(v) => v,
        None => {
            return None;
        },
    };
    let (v4, p5) = match dec_u16(b, p4) {
        Some(v) => v,
        None => {
            return None;
        },
    };
    Some((GtfsStopTime { trip_id: v0, arrival_time: v1, departure_time: v2, stop_id: v3, stop_sequence: v4 }, p5))
}


pub open spec fn spec_parse_stop_times(b: Seq<u8>, pos: int) -> Option<(Seq<StopTimeView>, int)> {
    match spec_parse_u64(b, pos) {
        Some((n, p)) => spec_parse_elems(b, p, n as nat, stop_time_parser()),
        None => None,
    }
}

pub proof fn lemma_parse_stop_times_prefix(b: Seq<u8>, b2: Seq<u8>, pos: int)
    requires
        spec_parse_stop_times(b, pos) is Some,
        seq_starts_with(b2, b),
    ensures
        spec_parse_stop_times(b2, pos) == spec_parse_stop_times(b, pos),
{
    lemma_parse_u64_prefix(b, b2, pos);
    let (n, p) = spec_parse_u64(b, pos)->Some_0;
    lemma_stop_time_parser_stable();
    lemma_parse_elems_prefix(b, b2, p, n as nat, stop_time_parser());
}

pub fn enc_stop_times(out: &mut Vec<u8>, xs: &Vec<GtfsStopTime>)
    ensures
        final(out)@.len() > old(out)@.len(),
        seq_starts_with(final(out)@, old(out)@),
        spec_parse_stop_times(final(out)@, old(out)@.len() as int) == Some(
            (xs@.map_values(|s: GtfsStopTime| s@), final(out)@.len() as int),
        ),
{
    let n = xs.len();
    enc_u64(out, n as u64);
    let ghost b0 = out@;
    let ghost p0 = out@.len() as int;
    proof {
        assert(out@.subrange(0, out@.len() as int) =~= out@);
    }
    let mut i: usize = 0;
    while i < n
        invariant
            i <= n,
            n == xs@.len(),
            p0 == b0.len(),
            seq_starts_with(out@, b0),
            spec_parse_elems(out@, p0, i as nat, stop_time_parser()) == Some(
                (xs@.take(i as int).map_values(|s: GtfsStopTime| s@), out@.len() as int),
            ),
        decreases n - i,
    {
        let ghost prev = out@;
        enc_stop_time(out, &xs[i]);
        proof {
            lemma_starts_with_trans(out@, prev, b0);
            lemma_stop_time_parser_stable();
            lemma_parse_elems_prefix(prev, out@, p0, i as nat, stop_time_parser());
            lemma_parse_elems_snoc(out@, p0, i as nat, stop_time_parser());
            assert(stop_time_parser()(out@, prev.len() as int) == spec_parse_stop_time(
                out@,
                prev.len() as int,
            ));
            assert(xs@.take(i as int).map_values(|s: GtfsStopTime| s@).push(xs@[i as int]@) =~= xs@.take(
                i + 1,
            ).map_values(|s: GtfsStopTime| s@));
        }
        i += 1;
    }
    proof {
        assert(xs@.take(n as int) =~= xs@);
        lemma_parse_u64_prefix(b0, out@, old(out)@.len() as int);
        lemma_starts_with_trans(out@, b0, old(out)@);
        assert((n as u64) as nat == n as nat);
    }
}

pub fn dec_stop_times(b: &[u8], pos: usize) -> (r: Option<(Vec<GtfsStopTime>, usize)>)
    ensures
        match r {
            Some((xs, p)) => {
                &&& spec_parse_stop_times(b@, pos as int) is Some
                &&& xs@.map_values(|s: GtfsStopTime| s@) == spec_parse_stop_times(b@, pos as int)->Some_0.0
                &&& p as int == spec_parse_stop_times(b@, pos as int)->Some_0.1
            },
            None => spec_parse_stop_times(b@, pos as int) is None,
        },
{
    let (n, p) = match dec_u64(b, pos) {
        Some(v) => v,
        None => {
            return None;
        },
    };
    let mut xs: Vec<GtfsStopTime> = Vec::new();
    let mut cur = p;
    let mut i: u64 = 0;
    proof {
        assert(xs@.map_values(|s: GtfsStopTime| s@) =~= Seq::<StopTimeView>::empty());
    }
    while i < n
        invariant
            i <= n,
            spec_parse_elems(b@, p as int, i as nat, stop_time_parser()) == Some(
                (xs@.map_values(|s: GtfsStopTime| s@), cur as int),
            ),
            spec_parse_u64(b@, pos as int) == Some((n, p as int)),
        decreases n - i,
    {
        match dec_stop_time(b, cur) {
            Some((x, p2)) => {
                proof {
                    lemma_parse_elems_snoc(b@, p as int, i as nat, stop_time_parser());
                    assert(stop_time_parser()(b@, cur as int) == spec_parse_stop_time(b@, cur as int));
                    assert(xs@.map_values(|s: GtfsStopTime| s@).push(x@) =~= xs@.push(x).map_values(
                        |s: GtfsStopTime| s@,
                    ));
                }
                xs.push(x);
                cur = p2;
                i = i + 1;
            },
            None => {
                proof {
                    assert(stop_time_parser()(b@, cur as int) == spec_parse_stop_time(b@, cur as int));
                    lemma_parse_elems_fail(b@, p as int, i as nat, n as nat, stop_time_parser());
                }
                return None;
            },
        }
    }
    Some((xs, cur))
}

// ---------------------------------------------------------------------------
// Trips
// ---------------------------------------------------------------------------


pub open spec fn spec_parse_trip(b: Seq<u8>, pos: int) -> Option<(TripView, int)> {
    match spec_parse_str(b, pos) {
        Some((v0, p1)) =>         match spec_parse_str(b, p1) {
            Some((v1, p2)) =>             match spec_parse_str(b, p2) {
                Some((v2, p3)) =>                 match spec_parse_opt_str(b, p3) {
                    Some((v3, p4)) => Some((TripView { id: v0, service_id: v1, route_id: v2, short_name: v3 }, p4)),
                    None => None,
                },
                None => None,
            },
            None => None,
        },
        None => None,
    }
}

pub proof fn lemma_parse_trip_prefix(b: Seq<u8>, b2: Seq<u8>, pos: int)
    requires
        spec_parse_trip(b, pos) is Some,
        seq_starts_with(b2, b),
    ensures
        spec_parse_trip(b2, pos) == spec_parse_trip(b, pos),
{
    lemma_parse_str_prefix(b, b2, pos);
    let p1 = spec_parse_str(b, pos)->Some_0.1;
    lemma_parse_str_prefix(b, b2, p1);
    let p2 = spec_parse_str(b, p1)->Some_0.1;
    lemma_parse_str_prefix(b, b2, p2);
    let p3 = spec_parse_str(b, p2)->Some_0.1;
    lemma_parse_opt_str_prefix(b, b2, p3);
}

pub open spec fn trip_parser() -> spec_fn(Seq<u8>, int) -> Option<(TripView, int)> {
    |b: Seq<u8>, pos: int| spec_parse_trip(b, pos)
}

pub proof fn lemma_trip_parser_stable()
    ensures
        parser_prefix_stable(trip_parser()),
{
    let f = trip_parser();
    assert forall|bb: Seq<u8>, bb2: Seq<u8>, p: int|
        #![trigger f(bb, p), seq_starts_with(bb2, bb)]
        f(bb, p) is Some && seq_starts_with(bb2, bb) implies f(bb2, p) == f(bb, p) by {
        lemma_parse_trip_prefix(bb, bb2, p);
    }
}

pub fn enc_trip(out: &mut Vec<u8>, x: &GtfsTrip)
    ensures
        final(out)@.len() > old(out)@.len(),
        seq_starts_with(final(out)@, old(out)@),
        spec_parse_trip(final(out)@, old(out)@.len() as int) == Some(
            (x@, final(out)@.len() as int),
        ),
{
    enc_str(out, x.id.as_str());
    let ghost b1 = out@;
    let ghost p1 = out@.len() as int;
    enc_str(out, x.service_id.as_str());
    let ghost b2 = out@;
    let ghost p2 = out@.len() as int;
    enc_str(out, x.route_id.as_str());
    let ghost b3 = out@;
    let ghost p3 = out@.len() as int;
    enc_opt_str(out, &x.short_name);
    proof {
        lemma_starts_with_trans(out@, b3, b2);
        lemma_starts_with_trans(out@, b2, b1);
        lemma_starts_with_trans(out@, b1, old(out)@);
        lemma_parse_str_prefix(b1, out@, old(out)@.len() as int);
        lemma_parse_str_prefix(b2, out@, p1);
        lemma_parse_str_prefix(b3, out@, p2);
    }
}

pub fn dec_trip(b: &[u8], pos: usize) -> (r: Option<(GtfsTrip, usize)>)
    ensures
        match r {
            Some((x, p)) => {
                &&& spec_parse_trip(b@, pos as int) is Some
                &&& x@ == spec_parse_trip(b@, pos as int)->Some_0.0
                &&& p as int == spec_parse_trip(b@, pos as int)->Some_0.1
            },
            None => spec_parse_trip(b@, pos as int) is None,
        },
{
    let (v0, p1) = match dec_str(b, pos) {
        Some(v) => v,
        None => {
            return None;
        },
    };
    let (v1, p2) = match dec_str(b, p1) {
        Some(v) => v,
        None => {
            return None;
        },
    };
    let (v2, p3) = match dec_str(b, p2) {
        Some(v) => v,
        None => {
            return None;
        },
    };
    let (v3, p4) = match dec_opt_str(b, p3) {
        Some(v) => v,
        None => {
            return None;
        },
    };
    Some((GtfsTrip { id: v0, service_id: v1, route_id: v2, short_name: v3 }, p4))
}


pub open spec fn spec_parse_trips(b: Seq<u8>, pos: int) -> Option<(Seq<TripView>, int)> {
    match spec_parse_u64(b, pos) {
        Some((n, p)) => spec_parse_elems(b, p, n as nat, trip_parser()),
        None => None,
    }
}

pub proof fn lemma_parse_trips_prefix(b: Seq<u8>, b2: Seq<u8>, pos: int)
    requires
        spec_parse_trips(b, pos) is Some,
        seq_starts_with(b2, b),
    ensures
        spec_parse_trips(b2, pos) == spec_parse_trips(b, pos),
{
    lemma_parse_u64_prefix(b, b2, pos);
    let (n, p) = spec_parse_u64(b, pos)->Some_0;
    lemma_trip_parser_stable();
    lemma_parse_elems_prefix(b, b2, p, n as nat, trip_parser());
}

pub fn enc_trips(out: &mut Vec<u8>, xs: &Vec<GtfsTrip>)
    ensures
        final(out)@.len() > old(out)@.len(),
        seq_starts_with(final(out)@, old(out)@),
        spec_parse_trips(final(out)@, old(out)@.len() as int) == Some(
            (xs@.map_values(|s: GtfsTrip| s@), final(out)@.len() as int),
        ),
{
    let n = xs.len();
    enc_u64(out, n as u64);
    let ghost b0 = out@;
    let ghost p0 = out@.len() as int;
    proof {
        assert(out@.subrange(0, out@.len() as int) =~= out@);
    }
    let mut i: usize = 0;
    while i < n
        invariant
            i <= n,
            n == xs@.len(),
            p0 == b0.len(),
            seq_starts_with(out@, b0),
            spec_parse_elems(out@, p0, i as nat, trip_parser()) == Some(
                (xs@.take(i as int).map_values(|s: GtfsTrip| s@), out@.len() as int),
            ),
        decreases n - i,
    {
        let ghost prev = out@;
        enc_trip(out, &xs[i]);
        proof {
            lemma_starts_with_trans(out@, prev, b0);
            lemma_trip_parser_stable();
            lemma_parse_elems_prefix(prev, out@, p0, i as nat, trip_parser());
            lemma_parse_elems_snoc(out@, p0, i as nat, trip_parser());
            assert(trip_parser()(out@, prev.len() as int) == spec_parse_trip(
                out@,
                prev.len() as int,
            ));
            assert(xs@.take(i as int).map_values(|s: GtfsTrip| s@).push(xs@[i as int]@) =~= xs@.take(
                i + 1,
            ).map_values(|s: GtfsTrip| s@));
        }
        i += 1;
    }
    proof {
        assert(xs@.take(n as int) =~= xs@);
        lemma_parse_u64_prefix(b0, out@, old(out)@.len() as int);
        lemma_starts_with_trans(out@, b0, old(out)@);
        assert((n as u64) as nat == n as nat);
    }
}

pub fn dec_trips(b: &[u8], pos: usize) -> (r: Option<(Vec<GtfsTrip>, usize)>)
    ensures
        match r {
            Some((xs, p)) => {
                &&& spec_parse_trips(b@, pos as int) is Some
                &&& xs@.map_values(|s: GtfsTrip| s@) == spec_parse_trips(b@, pos as int)->Some_0.0
                &&& p as int == spec_parse_trips(b@, pos as int)->Some_0.1
            },
            None => spec_parse_trips(b@, pos as int) is None,
        },
{
    let (n, p) = match dec_u64(b, pos) {
        Some(v) => v,
        None => {
            return None;
        },
    };
    let mut xs: Vec<GtfsTrip> = Vec::new();
    let mut cur = p;
    let mut i: u64 = 0;
    proof {
        assert(xs@.map_values(|s: GtfsTrip| s@) =~= Seq::<TripView>::empty());
    }
    while i < n
        invariant
            i <= n,
            spec_parse_elems(b@, p as int, i as nat, trip_parser()) == Some(
                (xs@.map_values(|s: GtfsTrip| s@), cur as int),
            ),
            spec_parse_u64(b@, pos as int) == Some((n, p as int)),
        decreases n - i,
    {
        match dec_trip(b, cur) {
            Some((x, p2)) => {
                proof {
                    lemma_parse_elems_snoc(b@, p as int, i as nat, trip_parser());
                    assert(trip_parser()(b@, cur as int) == spec_parse_trip(b@, cur as int));
                    assert(xs@.map_values(|s: GtfsTrip| s@).push(x@) =~= xs@.push(x).map_values(
                        |s: GtfsTrip| s@,
                    ));
                }
                xs.push(x);
                cur = p2;
                i = i + 1;
            },
            None => {
                proof {
                    assert(trip_parser()(b@, cur as int) == spec_parse_trip(b@, cur as int));
                    lemma_parse_elems_fail(b@, p as int, i as nat, n as nat, trip_parser());
                }
                return None;
            },
        }
    }
    Some((xs, cur))
}

// ---------------------------------------------------------------------------
// Routes
// ---------------------------------------------------------------------------


pub open spec fn spec_parse_route(b: Seq<u8>, pos: int) -> Option<(RouteView, int)> {
    match spec_parse_str(b, pos) {
        Some((v0, p1)) =>         match spec_parse_opt_str(b, p1) {
            Some((v1, p2)) =>             match spec_parse_opt_str(b, p2) {
                Some((v2, p3)) =>                 match spec_parse_route_type(b, p3) {
                    Some((v3, p4)) =>                     match spec_parse_opt_str(b, p4) {
                        Some((v4, p5)) => Some((RouteView { id: v0, short_name: v1, long_name: v2, route_type: v3, agency_id: v4 }, p5)),
                        None => None,
                    },
                    None => None,
                },
                None => None,
            },
            None => None,
        },
        None => None,
    }
}

pub proof fn lemma_parse_route_prefix(b: Seq<u8>, b2: Seq<u8>, pos: int)
    requires
        spec_parse_route(b, pos) is Some,
        seq_starts_with(b2, b),
    ensures
        spec_parse_route(b2, pos) == spec_parse_route(b, pos),
{
    lemma_parse_str_prefix(b, b2, pos);
    let p1 = spec_parse_str(b, pos)->Some_0.1;
    lemma_parse_opt_str_prefix(b, b2, p1);
    let p2 = spec_parse_opt_str(b, p1)->Some_0.1;
    lemma_parse_opt_str_prefix(b, b2, p2);
    let p3 = spec_parse_opt_str(b, p2)->Some_0.1;
    lemma_parse_route_type_prefix(b, b2, p3);
    let p4 = spec_parse_route_type(b, p3)->Some_0.1;
    lemma_parse_opt_str_prefix(b, b2, p4);
}

pub open spec fn route_parser() -> spec_fn(Seq<u8>, int) -> Option<(RouteView, int)> {
    |b: Seq<u8>, pos: int| spec_parse_route(b, pos)
}

pub proof fn lemma_route_parser_stable()
    ensures
        parser_prefix_stable(route_parser()),
{
    let f = route_parser();
    assert forall|bb: Seq<u8>, bb2: Seq<u8>, p: int|
        #![trigger f(bb, p), seq_starts_with(bb2, bb)]
        f(bb, p) is Some && seq_starts_with(bb2, bb) implies f(bb2, p) == f(bb, p) by {
        lemma_parse_route_prefix(bb, bb2, p);
    }
}

pub fn enc_route(out: &mut Vec<u8>, x: &GtfsRoute)
    ensures
        final(out)@.len() > old(out)@.len(),
        seq_starts_with(final(out)@, old(out)@),
        spec_parse_route(final(out)@, old(out)@.len() as int) == Some(
            (x@, final(out)@.len() as int),
        ),
{
    enc_str(out, x.id.as_str());
    let ghost b1 = out@;
    let ghost p1 = out@.len() as int;
    enc_opt_str(out, &x.short_name);
    let ghost b2 = out@;
    let ghost p2 = out@.len() as int;
    enc_opt_str(out, &x.long_name);
    let ghost b3 = out@;
    let ghost p3 = out@.len() as int;
    enc_route_type(out, &x.route_type);
    let ghost b4 = out@;
    let ghost p4 = out@.len() as int;
    enc_opt_str(out, &x.agency_id);
    proof {
        lemma_starts_with_trans(out@, b4, b3);
        lemma_starts_with_trans(out@, b3, b2);
        lemma_starts_with_trans(out@, b2, b1);
        lemma_starts_with_trans(out@, b1, old(out)@);
        lemma_parse_str_prefix(b1, out@, old(out)@.len() as int);
        lemma_parse_opt_str_prefix(b2, out@, p1);
        lemma_parse_opt_str_prefix(b3, out@, p2);
        lemma_parse_route_type_prefix(b4, out@, p3);
    }
}

pub fn dec_route(b: &[u8], pos: usize) -> (r: Option<(GtfsRoute, usize)>)
    ensures
        match r {
            Some((x, p)) => {
                &&& spec_parse_route(b@, pos as int) is Some
                &&& x@ == spec_parse_route(b@, pos as int)->Some_0.0
                &&& p as int == spec_parse_route(b@, pos as int)->Some_0.1
            },
            None => spec_parse_route(b@, pos as int) is None,
        },
{
    let (v0, p1) = match dec_str(b, pos) {
        Some(v) => v,
        None => {
            return None;
        },
    };
    let (v1, p2) = match dec_opt_str(b, p1) {
        Some(v) => v,
        None => {
            return None;
        },
    };
    let (v2, p3) = match dec_opt_str(b, p2) {
        Some(v) => v,
        None => {
            return None;
        },
    };
    let (v3, p4) = match dec_route_type(b, p3) {
        Some(v) => v,
        None => {
            return None;
        },
    };
    let (v4, p5) = match dec_opt_str(b, p4) {
        Some(v) => v,
        None => {
            return None;
        },
    };
    Some((GtfsRoute { id: v0, short_name: v1, long_name: v2, route_type: v3, agency_id: v4 }, p5))
}


pub open spec fn spec_parse_routes(b: Seq<u8>, pos: int) -> Option<(Seq<RouteView>, int)> {
    match spec_parse_u64(b, pos) {
        Some((n, p)) => spec_parse_elems(b, p, n as nat, route_parser()),
        None => None,
    }
}

pub proof fn lemma_parse_routes_prefix(b: Seq<u8>, b2: Seq<u8>, pos: int)
    requires
        spec_parse_routes(b, pos) is Some,
        seq_starts_with(b2, b),
    ensures
        spec_parse_routes(b2, pos) == spec_parse_routes(b, pos),
{
    lemma_parse_u64_prefix(b, b2, pos);
    let (n, p) = spec_parse_u64(b, pos)->Some_0;
    lemma_route_parser_stable();
    lemma_parse_elems_prefix(b, b2, p, n as nat, route_parser());
}

pub fn enc_routes(out: &mut Vec<u8>, xs: &Vec<GtfsRoute>)
    ensures
        final(out)@.len() > old(out)@.len(),
        seq_starts_with(final(out)@, old(out)@),
        spec_parse_routes(final(out)@, old(out)@.len() as int) == Some(
            (xs@.map_values(|s: GtfsRoute| s@), final(out)@.len() as int),
        ),
{
    let n = xs.len();
    enc_u64(out, n as u64);
    let ghost b0 = out@;
    let ghost p0 = out@.len() as int;
    proof {
        assert(out@.subrange(0, out@.len() as int) =~= out@);
    }
    let mut i: usize = 0;
    while i < n
        invariant
            i <= n,
            n == xs@.len(),
            p0 == b0.len(),
            seq_starts_with(out@, b0),
            spec_parse_elems(out@, p0, i as nat, route_parser()) == Some(
                (xs@.take(i as int).map_values(|s: GtfsRoute| s@), out@.len() as int),
            ),
        decreases n - i,
    {
        let ghost prev = out@;
        enc_route(out, &xs[i]);
        proof {
            lemma_starts_with_trans(out@, prev, b0);
            lemma_route_parser_stable();
            lemma_parse_elems_prefix(prev, out@, p0, i as nat, route_parser());
            lemma_parse_elems_snoc(out@, p0, i as nat, route_parser());
            assert(route_parser()(out@, prev.len() as int) == spec_parse_route(
                out@,
                prev.len() as int,
            ));
            assert(xs@.take(i as int).map_values(|s: GtfsRoute| s@).push(xs@[i as int]@) =~= xs@.take(
                i + 1,
            ).map_values(|s: GtfsRoute| s@));
        }
        i += 1;
    }
    proof {
        assert(xs@.take(n as int) =~= xs@);
        lemma_parse_u64_prefix(b0, out@, old(out)@.len() as int);
        lemma_starts_with_trans(out@, b0, old(out)@);
        assert((n as u64) as nat == n as nat);
    }
}

pub fn dec_routes(b: &[u8], pos: usize) -> (r: Option<(Vec<GtfsRoute>, usize)>)
    ensures
        match r {
            Some((xs, p)) => {
                &&& spec_parse_routes(b@, pos as int) is Some
                &&& xs@.map_values(|s: GtfsRoute| s@) == spec_parse_routes(b@, pos as int)->Some_0.0
                &&& p as int == spec_parse_routes(b@, pos as int)->Some_0.1
            },
            None => spec_parse_routes(b@, pos as int) is None,
        },
{
    let (n, p) = match dec_u64(b, pos) {
        Some(v) => v,
        None => {
            return None;
        },
    };
    let mut xs: Vec<GtfsRoute> = Vec::new();
    let mut cur = p;
    let mut i: u64 = 0;
    proof {
        assert(xs@.map_values(|s: GtfsRoute| s@) =~= Seq::<RouteView>::empty());
    }
    while i < n
        invariant
            i <= n,
            spec_parse_elems(b@, p as int, i as nat, route_parser()) == Some(
                (xs@.map_values(|s: GtfsRoute| s@), cur as int),
            ),
            spec_parse_u64(b@, pos as int) == Some((n, p as int)),
        decreases n - i,
    {
        match dec_route(b, cur) {
            Some((x, p2)) => {
                proof {
                    lemma_parse_elems_snoc(b@, p as int, i as nat, route_parser());
                    assert(route_parser()(b@, cur as int) == spec_parse_route(b@, cur as int));
                    assert(xs@.map_values(|s: GtfsRoute| s@).push(x@) =~= xs@.push(x).map_values(
                        |s: GtfsRoute| s@,
                    ));
                }
                xs.push(x);
                cur = p2;
                i = i + 1;
            },
            None => {
                proof {
                    assert(route_parser()(b@, cur as int) == spec_parse_route(b@, cur as int));
                    lemma_parse_elems_fail(b@, p as int, i as nat, n as nat, route_parser());
                }
                return None;
            },
        }
    }
    Some((xs, cur))
}

// ---------------------------------------------------------------------------
// Agencies
// ---------------------------------------------------------------------------


pub open spec fn spec_parse_agency(b: Seq<u8>, pos: int) -> Option<(AgencyView, int)> {
    match spec_parse_opt_str(b, pos) {
        Some((v0, p1)) =>         match spec_parse_str(b, p1) {
            Some((v1, p2)) => Some((AgencyView { id: v0, name: v1 }, p2)),
            None => None,
        },
        None => None,
    }
}

pub proof fn lemma_parse_agency_prefix(b: Seq<u8>, b2: Seq<u8>, pos: int)
    requires
        spec_parse_agency(b, pos) is Some,
        seq_starts_with(b2, b),
    ensures
        spec_parse_agency(b2, pos) == spec_parse_agency(b, pos),
{
    lemma_parse_opt_str_prefix(b, b2, pos);
    let p1 = spec_parse_opt_str(b, pos)->Some_0.1;
    lemma_parse_str_prefix(b, b2, p1);
}

pub open spec fn agency_parser() -> spec_fn(Seq<u8>, int) -> Option<(AgencyView, int)> {
    |b: Seq<u8>, pos: int| spec_parse_agency(b, pos)
}

pub proof fn lemma_agency_parser_stable()
    ensures
        parser_prefix_stable(agency_parser()),
{
    let f = agency_parser();
    assert forall|bb: Seq<u8>, bb2: Seq<u8>, p: int|
        #![trigger f(bb, p), seq_starts_with(bb2, bb)]
        f(bb, p) is Some && seq_starts_with(bb2, bb) implies f(bb2, p) == f(bb, p) by {
        lemma_parse_agency_prefix(bb, bb2, p);
    }
}

pub fn enc_agency(out: &mut Vec<u8>, x: &GtfsAgency)
    ensures
        final(out)@.len() > old(out)@.len(),
        seq_starts_with(final(out)@, old(out)@),
        spec_parse_agency(final(out)@, old(out)@.len() as int) == Some(
            (x@, final(out)@.len() as int),
        ),
{
    enc_opt_str(out, &x.id);
    let ghost b1 = out@;
    let ghost p1 = out@.len() as int;
    enc_str(out, x.name.as_str());
    proof {
        lemma_starts_with_trans(out@, b1, old(out)@);
        lemma_parse_opt_str_prefix(b1, out@, old(out)@.len() as int);
    }
}

pub fn dec_agency(b: &[u8], pos: usize) -> (r: Option<(GtfsAgency, usize)>)
    ensures
        match r {
            Some((x, p)) => {
                &&& spec_parse_agency(b@, pos as int) is Some
                &&& x@ == spec_parse_agency(b@, pos as int)->Some_0.0
                &&& p as int == spec_parse_agency(b@, pos as int)->Some_0.1
            },
            None => spec_parse_agency(b@, pos as int) is None,
        },
{
    let (v0, p1) = match dec_opt_str(b, pos) {
        Some(v) => v,
        None => {
            return None;
        },
    };
    let (v1, p2) = match dec_str(b, p1) {
        Some(v) => v,
        None => {
            return None;
        },
    };
    Some((GtfsAgency { id: v0, name: v1 }, p2))
}


pub open spec fn spec_parse_agencies(b: Seq<u8>, pos: int) -> Option<(Seq<AgencyView>, int)> {
    match spec_parse_u64(b, pos) {
        Some((n, p)) => spec_parse_elems(b, p, n as nat, agency_parser()),
        None => None,
    }
}

pub proof fn lemma_parse_agencies_prefix(b: Seq<u8>, b2: Seq<u8>, pos: int)
    requires
        spec_parse_agencies(b, pos) is Some,
        seq_starts_with(b2, b),
    ensures
        spec_parse_agencies(b2, pos) == spec_parse_agencies(b, pos),
{
    lemma_parse_u64_prefix(b, b2, pos);
    let (n, p) = spec_parse_u64(b, pos)->Some_0;
    lemma_agency_parser_stable();
    lemma_parse_elems_prefix(b, b2, p, n as nat, agency_parser());
}

pub fn enc_agencies(out: &mut Vec<u8>, xs: &Vec<GtfsAgency>)
    ensures
        final(out)@.len() > old(out)@.len(),
        seq_starts_with(final(out)@, old(out)@),
        spec_parse_agencies(final(out)@, old(out)@.len() as int) == Some(
            (xs@.map_values(|s: GtfsAgency| s@), final(out)@.len() as int),
        ),
{
    let n = xs.len();
    enc_u64(out, n as u64);
    let ghost b0 = out@;
    let ghost p0 = out@.len() as int;
    proof {
        assert(out@.subrange(0, out@.len() as int) =~= out@);
    }
    let mut i: usize = 0;
    while i < n
        invariant
            i <= n,
            n == xs@.len(),
            p0 == b0.len(),
            seq_starts_with(out@, b0),
            spec_parse_elems(out@, p0, i as nat, agency_parser()) == Some(
                (xs@.take(i as int).map_values(|s: GtfsAgency| s@), out@.len() as int),
            ),
        decreases n - i,
    {
        let ghost prev = out@;
        enc_agency(out, &xs[i]);
        proof {
            lemma_starts_with_trans(out@, prev, b0);
            lemma_agency_parser_stable();
            lemma_parse_elems_prefix(prev, out@, p0, i as nat, agency_parser());
            lemma_parse_elems_snoc(out@, p0, i as nat, agency_parser());
            assert(agency_parser()(out@, prev.len() as int) == spec_parse_agency(
                out@,
                prev.len() as int,
            ));
            assert(xs@.take(i as int).map_values(|s: GtfsAgency| s@).push(xs@[i as int]@) =~= xs@.take(
                i + 1,
            ).map_values(|s: GtfsAgency| s@));
        }
        i += 1;
    }
    proof {
        assert(xs@.take(n as int) =~= xs@);
        lemma_parse_u64_prefix(b0, out@, old(out)@.len() as int);
        lemma_starts_with_trans(out@, b0, old(out)@);
        assert((n as u64) as nat == n as nat);
    }
}

pub fn dec_agencies(b: &[u8], pos: usize) -> (r: Option<(Vec<GtfsAgency>, usize)>)
    ensures
        match r {
            Some((xs, p)) => {
                &&& spec_parse_agencies(b@, pos as int) is Some
                &&& xs@.map_values(|s: GtfsAgency| s@) == spec_parse_agencies(b@, pos as int)->Some_0.0
                &&& p as int == spec_parse_agencies(b@, pos as int)->Some_0.1
            },
            None => spec_parse_agencies(b@, pos as int) is None,
        },
{
    let (n, p) = match dec_u64(b, pos) {
        Some(v) => v,
        None => {
            return None;
        },
    };
    let mut xs: Vec<GtfsAgency> = Vec::new();
    let mut cur = p;
    let mut i: u64 = 0;
    proof {
        assert(xs@.map_values(|s: GtfsAgency| s@) =~= Seq::<AgencyView>::empty());
    }
    while i < n
        invariant
            i <= n,
            spec_parse_elems(b@, p as int, i as nat, agency_parser()) == Some(
                (xs@.map_values(|s: GtfsAgency| s@), cur as int),
            ),
            spec_parse_u64(b@, pos as int) == Some((n, p as int)),
        decreases n - i,
    {
        match dec_agency(b, cur) {
            Some((x, p2)) => {
                proof {
                    lemma_parse_elems_snoc(b@, p as int, i as nat, agency_parser());
                    assert(agency_parser()(b@, cur as int) == spec_parse_agency(b@, cur as int));
                    assert(xs@.map_values(|s: GtfsAgency| s@).push(x@) =~= xs@.push(x).map_values(
                        |s: GtfsAgency| s@,
                    ));
                }
                xs.push(x);
                cur = p2;
                i = i + 1;
            },
            None => {
                proof {
                    assert(agency_parser()(b@, cur as int) == spec_parse_agency(b@, cur as int));
                    lemma_parse_elems_fail(b@, p as int, i as nat, n as nat, agency_parser());
                }
                return None;
            },
        }
    }
    Some((xs, cur))
}

// ---------------------------------------------------------------------------
// Calendars
// ---------------------------------------------------------------------------


pub open spec fn spec_parse_calendar(b: Seq<u8>, pos: int) -> Option<(CalendarView, int)> {
    match spec_parse_str(b, pos) {
        Some((v0, p1)) =>         match spec_parse_bool(b, p1) {
            Some((v1, p2)) =>             match spec_parse_bool(b, p2) {
                Some((v2, p3)) =>                 match spec_parse_bool(b, p3) {
                    Some((v3, p4)) =>                     match spec_parse_bool(b, p4) {
                        Some((v4, p5)) =>                         match spec_parse_bool(b, p5) {
                            Some((v5, p6)) =>                             match spec_parse_bool(b, p6) {
                                Some((v6, p7)) =>                                 match spec_parse_bool(b, p7) {
                                    Some((v7, p8)) =>                                     match spec_parse_str(b, p8) {
                                        Some((v8, p9)) =>                                         match spec_parse_str(b, p9) {
                                            Some((v9, p10)) => Some((CalendarView { id: v0, monday: v1, tuesday: v2, wednesday: v3, thursday: v4, friday: v5, saturday: v6, sunday: v7, start_date: v8, end_date: v9 }, p10)),
                                            None => None,
                                        },
                                        None => None,
                                    },
                                    None => None,
                                },
                                None => None,
                            },
                            None => None,
                        },
                        None => None,
                    },
                    None => None,
                },
                None => None,
            },
            None => None,
        },
        None => None,
    }
}

pub proof fn lemma_parse_calendar_prefix(b: Seq<u8>, b2: Seq<u8>, pos: int)
    requires
        spec_parse_calendar(b, pos) is Some,
        seq_starts_with(b2, b),
    ensures
        spec_parse_calendar(b2, pos) == spec_parse_calendar(b, pos),
{
    lemma_parse_str_prefix(b, b2, pos);
    let p1 = spec_parse_str(b, pos)->Some_0.1;
    lemma_parse_bool_prefix(b, b2, p1);
    let p2 = spec_parse_bool(b, p1)->Some_0.1;
    lemma_parse_bool_prefix(b, b2, p2);
    let p3 = spec_parse_bool(b, p2)->Some_0.1;
    lemma_parse_bool_prefix(b, b2, p3);
    let p4 = spec_parse_bool(b, p3)->Some_0.1;
    lemma_parse_bool_prefix(b, b2, p4);
    let p5 = spec_parse_bool(b, p4)->Some_0.1;
    lemma_parse_bool_prefix(b, b2, p5);
    let p6 = spec_parse_bool(b, p5)->Some_0.1;
    lemma_parse_bool_prefix(b, b2, p6);
    let p7 = spec_parse_bool(b, p6)->Some_0.1;
    lemma_parse_bool_prefix(b, b2, p7);
    let p8 = spec_parse_bool(b, p7)->Some_0.1;
    lemma_parse_str_prefix(b, b2, p8);
    let p9 = spec_parse_str(b, p8)->Some_0.1;
    lemma_parse_str_prefix(b, b2, p9);
}

pub open spec fn calendar_parser() -> spec_fn(Seq<u8>, int) -> Option<(CalendarView, int)> {
    |b: Seq<u8>, pos: int| spec_parse_calendar(b, pos)
}

pub proof fn lemma_calendar_parser_stable()
    ensures
        parser_prefix_stable(calendar_parser()),
{
    let f = calendar_parser();
    assert forall|bb: Seq<u8>, bb2: Seq<u8>, p: int|
        #![trigger f(bb, p), seq_starts_with(bb2, bb)]
        f(bb, p) is Some && seq_starts_with(bb2, bb) implies f(bb2, p) == f(bb, p) by {
        lemma_parse_calendar_prefix(bb, bb2, p);
    }
}

pub fn enc_calendar(out: &mut Vec<u8>, x: &GtfsCalendar)
    ensures
        final(out)@.len() > old(out)@.len(),
        seq_starts_with(final(out)@, old(out)@),
        spec_parse_calendar(final(out)@, old(out)@.len() as int) == Some(
            (x@, final(out)@.len() as int),
        ),
{
    enc_str(out, x.id.as_str());
    let ghost b1 = out@;
    let ghost p1 = out@.len() as int;
    enc_bool(out, x.monday);
    let ghost b2 = out@;
    let ghost p2 = out@.len() as int;
    enc_bool(out, x.tuesday);
    let ghost b3 = out@;
    let ghost p3 = out@.len() as int;
    enc_bool(out, x.wednesday);
    let ghost b4 = out@;
    let ghost p4 = out@.len() as int;
    enc_bool(out, x.thursday);
    let ghost b5 = out@;
    let ghost p5 = out@.len() as int;
    enc_bool(out, x.friday);
    let ghost b6 = out@;
    let ghost p6 = out@.len() as int;
    enc_bool(out, x.saturday);
    let ghost b7 = out@;
    let ghost p7 = out@.len() as int;
    enc_bool(out, x.sunday);
    let ghost b8 = out@;
    let ghost p8 = out@.len() as int;
    enc_str(out, x.start_date.as_str());
    let ghost b9 = out@;
    let ghost p9 = out@.len() as int;
    enc_str(out, x.end_date.as_str());
    proof {
        lemma_starts_with_trans(out@, b9, b8);
        lemma_starts_with_trans(out@, b8, b7);
        lemma_starts_with_trans(out@, b7, b6);
        lemma_starts_with_trans(out@, b6, b5);
        lemma_starts_with_trans(out@, b5, b4);
        lemma_starts_with_trans(out@, b4, b3);
        lemma_starts_with_trans(out@, b3, b2);
        lemma_starts_with_trans(out@, b2, b1);
        lemma_starts_with_trans(out@, b1, old(out)@);
        lemma_parse_str_prefix(b1, out@, old(out)@.len() as int);
        lemma_parse_bool_prefix(b2, out@, p1);
        lemma_parse_bool_prefix(b3, out@, p2);
        lemma_parse_bool_prefix(b4, out@, p3);
        lemma_parse_bool_prefix(b5, out@, p4);
        lemma_parse_bool_prefix(b6, out@, p5);
        lemma_parse_bool_prefix(b7, out@, p6);
        lemma_parse_bool_prefix(b8, out@, p7);
        lemma_parse_str_prefix(b9, out@, p8);
    }
}

pub fn dec_calendar(b: &[u8], pos: usize) -> (r: Option<(GtfsCalendar, usize)>)
    ensures
        match r {
            Some((x, p)) => {
                &&& spec_parse_calendar(b@, pos as int) is Some
                &&& x@ == spec_parse_calendar(b@, pos as int)->Some_0.0
                &&& p as int == spec_parse_calendar(b@, pos as int)->Some_0.1
            },
            None => spec_parse_calendar(b@, pos as int) is None,
        },
{
    let (v0, p1) = match dec_str(b, pos) {
        Some(v) => v,
        None => {
            return None;
        },
    };
    let (v1, p2) = match dec_bool(b, p1) {
        Some(v) => v,
        None => {
            return None;
        },
    };
    let (v2, p3) = match dec_bool(b, p2) {
        Some(v) => v,
        None => {
            return None;
        },
    };
    let (v3, p4) = match dec_bool(b, p3) {
        Some(v) => v,
        None => {
            return None;
        },
    };
    let (v4, p5) = match dec_bool(b, p4) {
        Some(v) => v,
        None => {
            return None;
        },
    };
    let (v5, p6) = match dec_bool(b, p5) {
        Some(v) => v,
        None => {
            return None;
        },
    };
    let (v6, p7) = match dec_bool(b, p6) {
        Some(v) => v,
        None => {
            return None;
        },
    };
    let (v7, p8) = match dec_bool(b, p7) {
        Some(v) => v,
        None => {
            return None;
        },
    };
    let (v8, p9) = match dec_str(b, p8) {
        Some(v) => v,
        None => {
            return None;
        },
    };
    let (v9, p10) = match dec_str(b, p9) {
        Some(v) => v,
        None => {
            return None;
        },
    };
    Some((GtfsCalendar { id: v0, monday: v1, tuesday: v2, wednesday: v3, thursday: v4, friday: v5, saturday: v6, sunday: v7, start_date: v8, end_date: v9 }, p10))
}


pub open spec fn spec_parse_calendars(b: Seq<u8>, pos: int) -> Option<(Seq<CalendarView>, int)> {
    match spec_parse_u64(b, pos) {
        Some((n, p)) => spec_parse_elems(b, p, n as nat, calendar_parser()),
        None => None,
    }
}

pub proof fn lemma_parse_calendars_prefix(b: Seq<u8>, b2: Seq<u8>, pos: int)
    requires
        spec_parse_calendars(b, pos) is Some,
        seq_starts_with(b2, b),
    ensures
        spec_parse_calendars(b2, pos) == spec_parse_calendars(b, pos),
{
    lemma_parse_u64_prefix(b, b2, pos);
    let (n, p) = spec_parse_u64(b, pos)->Some_0;
    lemma_calendar_parser_stable();
    lemma_parse_elems_prefix(b, b2, p, n as nat, calendar_parser());
}

pub fn enc_calendars(out: &mut Vec<u8>, xs: &Vec<GtfsCalendar>)
    ensures
        final(out)@.len() > old(out)@.len(),
        seq_starts_with(final(out)@, old(out)@),
        spec_parse_calendars(final(out)@, old(out)@.len() as int) == Some(
            (xs@.map_values(|s: GtfsCalendar| s@), final(out)@.len() as int),
        ),
{
    let n = xs.len();
    enc_u64(out, n as u64);
    let ghost b0 = out@;
    let ghost p0 = out@.len() as int;
    proof {
        assert(out@.subrange(0, out@.len() as int) =~= out@);
    }
    let mut i: usize = 0;
    while i < n
        invariant
            i <= n,
            n == xs@.len(),
            p0 == b0.len(),
            seq_starts_with(out@, b0),
            spec_parse_elems(out@, p0, i as nat, calendar_parser()) == Some(
                (xs@.take(i as int).map_values(|s: GtfsCalendar| s@), out@.len() as int),
            ),
        decreases n - i,
    {
        let ghost prev = out@;
        enc_calendar(out, &xs[i]);
        proof {
            lemma_starts_with_trans(out@, prev, b0);
            lemma_calendar_parser_stable();
            lemma_parse_elems_prefix(prev, out@, p0, i as nat, calendar_parser());
            lemma_parse_elems_snoc(out@, p0, i as nat, calendar_parser());
            assert(calendar_parser()(out@, prev.len() as int) == spec_parse_calendar(
                out@,
                prev.len() as int,
            ));
            assert(xs@.take(i as int).map_values(|s: GtfsCalendar| s@).push(xs@[i as int]@) =~= xs@.take(
                i + 1,
            ).map_values(|s: GtfsCalendar| s@));
        }
        i += 1;
    }
    proof {
        assert(xs@.take(n as int) =~= xs@);
        lemma_parse_u64_prefix(b0, out@, old(out)@.len() as int);
        lemma_starts_with_trans(out@, b0, old(out)@);
        assert((n as u64) as nat == n as nat);
    }
}

pub fn dec_calendars(b: &[u8], pos: usize) -> (r: Option<(Vec<GtfsCalendar>, usize)>)
    ensures
        match r {
            Some((xs, p)) => {
                &&& spec_parse_calendars(b@, pos as int) is Some
                &&& xs@.map_values(|s: GtfsCalendar| s@) == spec_parse_calendars(b@, pos as int)->Some_0.0
                &&& p as int == spec_parse_calendars(b@, pos as int)->Some_0.1
            },
            None => spec_parse_calendars(b@, pos as int) is None,
        },
{
    let (n, p) = match dec_u64(b, pos) {
        Some(v) => v,
        None => {
            return None;
        },
    };
    let mut xs: Vec<GtfsCalendar> = Vec::new();
    let mut cur = p;
    let mut i: u64 = 0;
    proof {
        assert(xs@.map_values(|s: GtfsCalendar| s@) =~= Seq::<CalendarView>::empty());
    }
    while i < n
        invariant
            i <= n,
            spec_parse_elems(b@, p as int, i as nat, calendar_parser()) == Some(
                (xs@.map_values(|s: GtfsCalendar| s@), cur as int),
            ),
            spec_parse_u64(b@, pos as int) == Some((n, p as int)),
        decreases n - i,
    {
        match dec_calendar(b, cur) {
            Some((x, p2)) => {
                proof {
                    lemma_parse_elems_snoc(b@, p as int, i as nat, calendar_parser());
                    assert(calendar_parser()(b@, cur as int) == spec_parse_calendar(b@, cur as int));
                    assert(xs@.map_values(|s: GtfsCalendar| s@).push(x@) =~= xs@.push(x).map_values(
                        |s: GtfsCalendar| s@,
                    ));
                }
                xs.push(x);
                cur = p2;
                i = i + 1;
            },
            None => {
                proof {
                    assert(calendar_parser()(b@, cur as int) == spec_parse_calendar(b@, cur as int));
                    lemma_parse_elems_fail(b@, p as int, i as nat, n as nat, calendar_parser());
                }
                return None;
            },
        }
    }
    Some((xs, cur))
}

// ---------------------------------------------------------------------------
// Calendar dates
// ---------------------------------------------------------------------------


pub open spec fn spec_parse_calendar_date(b: Seq<u8>, pos: int) -> Option<(CalendarDateView, int)> {
    match spec_parse_str(b, pos) {
        Some((v0, p1)) =>         match spec_parse_str(b, p1) {
            Some((v1, p2)) =>             match spec_parse_exception_type(b, p2) {
                Some((v2, p3)) => Some((CalendarDateView { service_id: v0, date: v1, exception_type: v2 }, p3)),
                None => None,
            },
            None => None,
        },
        None => None,
    }
}

pub proof fn lemma_parse_calendar_date_prefix(b: Seq<u8>, b2: Seq<u8>, pos: int)
    requires
        spec_parse_calendar_date(b, pos) is Some,
        seq_starts_with(b2, b),
    ensures
        spec_parse_calendar_date(b2, pos) == spec_parse_calendar_date(b, pos),
{
    lemma_parse_str_prefix(b, b2, pos);
    let p1 = spec_parse_str(b, pos)->Some_0.1;
    lemma_parse_str_prefix(b, b2, p1);
    let p2 = spec_parse_str(b, p1)->Some_0.1;
    lemma_parse_exception_type_prefix(b, b2, p2);
}

pub open spec fn calendar_date_parser() -> spec_fn(Seq<u8>, int) -> Option<(CalendarDateView, int)> {
    |b: Seq<u8>, pos: int| spec_parse_calendar_date(b, pos)
}

pub proof fn lemma_calendar_date_parser_stable()
    ensures
        parser_prefix_stable(calendar_date_parser()),
{
    let f = calendar_date_parser();
    assert forall|bb: Seq<u8>, bb2: Seq<u8>, p: int|
        #![trigger f(bb, p), seq_starts_with(bb2, bb)]
        f(bb, p) is Some && seq_starts_with(bb2, bb) implies f(bb2, p) == f(bb, p) by {
        lemma_parse_calendar_date_prefix(bb, bb2, p);
    }
}

pub fn enc_calendar_date(out: &mut Vec<u8>, x: &GtfsCalendarDate)
    ensures
        final(out)@.len() > old(out)@.len(),
        seq_starts_with(final(out)@, old(out)@),
        spec_parse_calendar_date(final(out)@, old(out)@.len() as int) == Some(
            (x@, final(out)@.len() as int),
        ),
{
    enc_str(out, x.service_id.as_str());
    let ghost b1 = out@;
    let ghost p1 = out@.len() as int;
    enc_str(out, x.date.as_str());
    let ghost b2 = out@;
    let ghost p2 = out@.len() as int;
    enc_exception_type(out, &x.exception_type);
    proof {
        lemma_starts_with_trans(out@, b2, b1);
        lemma_starts_with_trans(out@, b1, old(out)@);
        lemma_parse_str_prefix(b1, out@, old(out)@.len() as int);
        lemma_parse_str_prefix(b2, out@, p1);
    }
}

pub fn dec_calendar_date(b: &[u8], pos: usize) -> (r: Option<(GtfsCalendarDate, usize)>)
    ensures
        match r {
            Some((x, p)) => {
                &&& spec_parse_calendar_date(b@, pos as int) is Some
                &&& x@ == spec_parse_calendar_date(b@, pos as int)->Some_0.0
                &&& p as int == spec_parse_calendar_date(b@, pos as int)->Some_0.1
            },
            None => spec_parse_calendar_date(b@, pos as int) is None,
        },
{
    let (v0, p1) = match dec_str(b, pos) {
        Some(v) => v,
        None => {
            return None;
        },
    };
    let (v1, p2) = match dec_str(b, p1) {
        Some(v) => v,
        None => {
            return None;
        },
    };
    let (v2, p3) = match dec_exception_type(b, p2) {
        Some(v) => v,
        None => {
            return None;
        },
    };
    Some((GtfsCalendarDate { service_id: v0, date: v1, exception_type: v2 }, p3))
}

pub open spec fn spec_parse_calendar_dates(b: Seq<u8>, pos: int) -> Option<(Seq<CalendarDateView>, int)> {
    match spec_parse_u64(b, pos) {
        Some((n, p)) => spec_parse_elems(b, p, n as nat, calendar_date_parser()),
        None => None,
    }
}

pub proof fn lemma_parse_calendar_dates_prefix(b: Seq<u8>, b2: Seq<u8>, pos: int)
    requires
        spec_parse_calendar_dates(b, pos) is Some,
        seq_starts_with(b2, b),
    ensures
        spec_parse_calendar_dates(b2, pos) == spec_parse_calendar_dates(b, pos),
{
    lemma_parse_u64_prefix(b, b2, pos);
    let (n, p) = spec_parse_u64(b, pos)->Some_0;
    lemma_calendar_date_parser_stable();
    lemma_parse_elems_prefix(b, b2, p, n as nat, calendar_date_parser());
}

pub fn enc_calendar_dates(out: &mut Vec<u8>, xs: &Vec<GtfsCalendarDate>)
    ensures
        final(out)@.len() > old(out)@.len(),
        seq_starts_with(final(out)@, old(out)@),
        spec_parse_calendar_dates(final(out)@, old(out)@.len() as int) == Some(
            (xs@.map_values(|s: GtfsCalendarDate| s@), final(out)@.len() as int),
        ),
{
    let n = xs.len();
    enc_u64(out, n as u64);
    let ghost b0 = out@;
    let ghost p0 = out@.len() as int;
    proof {
        assert(out@.subrange(0, out@.len() as int) =~= out@);
    }
    let mut i: usize = 0;
    while i < n
        invariant
            i <= n,
            n == xs@.len(),
            p0 == b0.len(),
            seq_starts_with(out@, b0),
            spec_parse_elems(out@, p0, i as nat, calendar_date_parser()) == Some(
                (xs@.take(i as int).map_values(|s: GtfsCalendarDate| s@), out@.len() as int),
            ),
        decreases n - i,
    {
        let ghost prev = out@;
        enc_calendar_date(out, &xs[i]);
        proof {
            lemma_starts_with_trans(out@, prev, b0);
            lemma_calendar_date_parser_stable();
            lemma_parse_elems_prefix(prev, out@, p0, i as nat, calendar_date_parser());
            lemma_parse_elems_snoc(out@, p0, i as nat, calendar_date_parser());
            assert(calendar_date_parser()(out@, prev.len() as int) == spec_parse_calendar_date(
                out@,
                prev.len() as int,
            ));
            assert(xs@.take(i as int).map_values(|s: GtfsCalendarDate| s@).push(xs@[i as int]@) =~= xs@.take(
                i + 1,
            ).map_values(|s: GtfsCalendarDate| s@));
        }
        i += 1;
    }
    proof {
        assert(xs@.take(n as int) =~= xs@);
        lemma_parse_u64_prefix(b0, out@, old(out)@.len() as int);
        lemma_starts_with_trans(out@, b0, old(out)@);
        assert((n as u64) as nat == n as nat);
    }
}

pub fn dec_calendar_dates(b: &[u8], pos: usize) -> (r: Option<(Vec<GtfsCalendarDate>, usize)>)
    ensures
        match r {
            Some((xs, p)) => {
                &&& spec_parse_calendar_dates(b@, pos as int) is Some
                &&& xs@.map_values(|s: GtfsCalendarDate| s@) == spec_parse_calendar_dates(b@, pos as int)->Some_0.0
                &&& p as int == spec_parse_calendar_dates(b@, pos as int)->Some_0.1
            },
            None => spec_parse_calendar_dates(b@, pos as int) is None,
        },
{
    let (n, p) = match dec_u64(b, pos) {
        Some(v) => v,
        None => {
            return None;
        },
    };
    let mut xs: Vec<GtfsCalendarDate> = Vec::new();
    let mut cur = p;
    let mut i: u64 = 0;
    proof {
        assert(xs@.map_values(|s: GtfsCalendarDate| s@) =~= Seq::<CalendarDateView>::empty());
    }
    while i < n
        invariant
            i <= n,
            spec_parse_elems(b@, p as int, i as nat, calendar_date_parser()) == Some(
                (xs@.map_values(|s: GtfsCalendarDate| s@), cur as int),
            ),
            spec_parse_u64(b@, pos as int) == Some((n, p as int)),
        decreases n - i,
    {
        match dec_calendar_date(b, cur) {
            Some((x, p2)) => {
                proof {
                    lemma_parse_elems_snoc(b@, p as int, i as nat, calendar_date_parser());
                    assert(calendar_date_parser()(b@, cur as int) == spec_parse_calendar_date(b@, cur as int));
                    assert(xs@.map_values(|s: GtfsCalendarDate| s@).push(x@) =~= xs@.push(x).map_values(
                        |s: GtfsCalendarDate| s@,
                    ));
                }
                xs.push(x);
                cur = p2;
                i = i + 1;
            },
            None => {
                proof {
                    assert(calendar_date_parser()(b@, cur as int) == spec_parse_calendar_date(b@, cur as int));
                    lemma_parse_elems_fail(b@, p as int, i as nat, n as nat, calendar_date_parser());
                }
                return None;
            },
        }
    }
    Some((xs, cur))
}

// ---------------------------------------------------------------------------
// Whole archives
// ---------------------------------------------------------------------------

/// The buffer begins with the magic number and the given schema tag.
pub open spec fn header_ok(b: Seq<u8>, tag: u32) -> bool {
    match spec_parse_u32(b, 0) {
        Some((m, p)) => m == ARCHIVE_MAGIC && (match spec_parse_u32(b, p) {
            Some((t, _)) => t == tag,
            None => false,
        }),
        None => false,
    }
}

/// The normalized feed that a whole buffer denotes: header, the seven record
/// tables in a fixed order, and nothing behind them.
pub open spec fn spec_parse_gtfs_archive(b: Seq<u8>) -> Option<GtfsDataView> {
    if !header_ok(b, GTFS_SCHEMA_TAG) {
        None
    } else {
        let p1 = spec_parse_u32(b, spec_parse_u32(b, 0)->Some_0.1)->Some_0.1;
        match spec_parse_agencies(b, p1) {
            Some((agencies, p2)) => match spec_parse_calendars(b, p2) {
                Some((calendars, p3)) => match spec_parse_calendar_dates(b, p3) {
                    Some((calendar_dates, p4)) => match spec_parse_routes(b, p4) {
                        Some((routes, p5)) => match spec_parse_stops(b, p5) {
                            Some((stops, p6)) => match spec_parse_stop_times(b, p6) {
                                Some((stop_times, p7)) => match spec_parse_trips(b, p7) {
                                    Some((trips, p8)) => if p8 == b.len() {
                                        Some(
                                            GtfsDataView {
                                                agencies,
                                                calendars,
                                                calendar_dates,
                                                routes,
                                                stops,
                                                stop_times,
                                                trips,
                                            },
                                        )
                                    } else {
                                        None
                                    },
                                    None => None,
                                },
                                None => None,
                            },
                            None => None,
                        },
                        None => None,
                    },
                    None => None,
                },
                None => None,
            },
            None => None,
        }
    }
}

/// Turns the normalized feed into a self-contained archive buffer. Reading
/// the buffer back yields exactly the feed's view: that is the round trip.
pub fn serialize_gtfs(data: &GtfsData) -> (r: Vec<u8>)
    ensures
        spec_parse_gtfs_archive(r@) == Some(data@),
{
    let mut out: Vec<u8> = Vec::new();
    enc_u32(&mut out, ARCHIVE_MAGIC);
    let ghost b1 = out@;
    let ghost p1 = out@.len() as int;
    enc_u32(&mut out, GTFS_SCHEMA_TAG);
    let ghost b2 = out@;
    let ghost p2 = out@.len() as int;
    enc_agencies(&mut out, &data.agencies);
    let ghost b3 = out@;
    let ghost p3 = out@.len() as int;
    enc_calendars(&mut out, &data.calendars);
    let ghost b4 = out@;
    let ghost p4 = out@.len() as int;
    enc_calendar_dates(&mut out, &data.calendar_dates);
    let ghost b5 = out@;
    let ghost p5 = out@.len() as int;
    enc_routes(&mut out, &data.routes);
    let ghost b6 = out@;
    let ghost p6 = out@.len() as int;
    enc_stops(&mut out, &data.stops);
    let ghost b7 = out@;
    let ghost p7 = out@.len() as int;
    enc_stop_times(&mut out, &data.stop_times);
    let ghost b8 = out@;
    let ghost p8 = out@.len() as int;
    enc_trips(&mut out, &data.trips);
    proof {
        lemma_starts_with_trans(out@, b8, b7);
        lemma_starts_with_trans(out@, b7, b6);
        lemma_starts_with_trans(out@, b6, b5);
        lemma_starts_with_trans(out@, b5, b4);
        lemma_starts_with_trans(out@, b4, b3);
        lemma_starts_with_trans(out@, b3, b2);
        lemma_starts_with_trans(out@, b2, b1);
        lemma_parse_u32_prefix(b1, out@, 0);
        lemma_parse_u32_prefix(b2, out@, p1);
        lemma_parse_agencies_prefix(b3, out@, p2);
        lemma_parse_calendars_prefix(b4, out@, p3);
        lemma_parse_calendar_dates_prefix(b5, out@, p4);
        lemma_parse_routes_prefix(b6, out@, p5);
        lemma_parse_stops_prefix(b7, out@, p6);
        lemma_parse_stop_times_prefix(b8, out@, p7);
        assert(data@.agencies =~= data.agencies@.map_values(|s: GtfsAgency| s@));
        assert(data@.calendars =~= data.calendars@.map_values(|s: GtfsCalendar| s@));
        assert(data@.calendar_dates =~= data.calendar_dates@.map_values(
            |s: GtfsCalendarDate| s@,
        ));
        assert(data@.routes =~= data.routes@.map_values(|s: GtfsRoute| s@));
        assert(data@.stops =~= data.stops@.map_values(|s: GtfsStop| s@));
        assert(data@.stop_times =~= data.stop_times@.map_values(|s: GtfsStopTime| s@));
        assert(data@.trips =~= data.trips@.map_values(|s: GtfsTrip| s@));
    }
    out
}

/// Reads a whole archive buffer back. Succeeds exactly on the buffers the
/// format denotes; tells a foreign or stale header apart from a corrupt
/// body, so that callers can rebuild on schema mismatch.
pub fn deserialize_gtfs(b: &[u8]) -> (r: Result<GtfsData, ArchiveError>)
    ensures
        match r {
            Ok(d) => spec_parse_gtfs_archive(b@) == Some(d@),
            Err(ArchiveError::SchemaMismatch) => !header_ok(b@, GTFS_SCHEMA_TAG)
                && spec_parse_gtfs_archive(b@) is None,
            Err(ArchiveError::Malformed) => header_ok(b@, GTFS_SCHEMA_TAG)
                && spec_parse_gtfs_archive(b@) is None,
        },
{
    let (m, p0) = match dec_u32(b, 0) {
        Some(v) => v,
        None => {
            return Err(ArchiveError::SchemaMismatch);
        },
    };
    if m != ARCHIVE_MAGIC {
        return Err(ArchiveError::SchemaMismatch);
    }
    let (t, p1) = match dec_u32(b, p0) {
        Some(v) => v,
        None => {
            return Err(ArchiveError::SchemaMismatch);
        },
    };
    if t != GTFS_SCHEMA_TAG {
        return Err(ArchiveError::SchemaMismatch);
    }
    let (agencies, p2) = match dec_agencies(b, p1) {
        Some(v) => v,
        None => {
            return Err(ArchiveError::Malformed);
        },
    };
    let (calendars, p3) = match dec_calendars(b, p2) {
        Some(v) => v,
        None => {
            return Err(ArchiveError::Malformed);
        },
    };
    let (calendar_dates, p4) = match dec_calendar_dates(b, p3) {
        Some(v) => v,
        None => {
            return Err(ArchiveError::Malformed);
        },
    };
    let (routes, p5) = match dec_routes(b, p4) {
        Some(v) => v,
        None => {
            return Err(ArchiveError::Malformed);
        },
    };
    let (stops, p6) = match dec_stops(b, p5) {
        Some(v) => v,
        None => {
            return Err(ArchiveError::Malformed);
        },
    };
    let (stop_times, p7) = match dec_stop_times(b, p6) {
        Some(v) => v,
        None => {
            return Err(ArchiveError::Malformed);
        },
    };
    let (trips, p8) = match dec_trips(b, p7) {
        Some(v) => v,
        None => {
            return Err(ArchiveError::Malformed);
        },
    };
    if p8 != b.len() {
        return Err(ArchiveError::Malformed);
    }
    let d = GtfsData { agencies, calendars, calendar_dates, routes, stops, stop_times, trips };
    proof {
        assert(d@.agencies =~= d.agencies@.map_values(|s: GtfsAgency| s@));
        assert(d@.calendars =~= d.calendars@.map_values(|s: GtfsCalendar| s@));
        assert(d@.calendar_dates =~= d.calendar_dates@.map_values(|s: GtfsCalendarDate| s@));
        assert(d@.routes =~= d.routes@.map_values(|s: GtfsRoute| s@));
        assert(d@.stops =~= d.stops@.map_values(|s: GtfsStop| s@));
        assert(d@.stop_times =~= d.stop_times@.map_values(|s: GtfsStopTime| s@));
        assert(d@.trips =~= d.trips@.map_values(|s: GtfsTrip| s@));
    }
    Ok(d)
}

/// The connection graph that a whole buffer denotes.
pub open spec fn spec_parse_connections_archive(b: Seq<u8>) -> Option<AllConnectionsView> {
    if !header_ok(b, CONNECTIONS_SCHEMA_TAG) {
        None
    } else {
        let p1 = spec_parse_u32(b, spec_parse_u32(b, 0)->Some_0.1)->Some_0.1;
        match spec_parse_stations(b, p1) {
            Some((stations, p2)) => if p2 == b.len() {
                Some(AllConnectionsView { stations })
            } else {
                None
            },
            None => None,
        }
    }
}

/// Turns the connection graph into a self-contained archive buffer.
pub fn serialize_connections(all: &AllConnections) -> (r: Vec<u8>)
    ensures
        spec_parse_connections_archive(r@) == Some(all@),
{
    let mut out: Vec<u8> = Vec::new();
    enc_u32(&mut out, ARCHIVE_MAGIC);
    let ghost b1 = out@;
    let ghost p1 = out@.len() as int;
    enc_u32(&mut out, CONNECTIONS_SCHEMA_TAG);
    let ghost b2 = out@;
    let ghost p2 = out@.len() as int;
    enc_stations(&mut out, &all.stations);
    proof {
        lemma_starts_with_trans(out@, b2, b1);
        lemma_parse_u32_prefix(b1, out@, 0);
        lemma_parse_u32_prefix(b2, out@, p1);
        assert(all@.stations =~= all.stations@.map_values(|s: ConnectionsFromStation| s@));
    }
    out
}

/// Reads a connection-graph archive back.
pub fn deserialize_connections(b: &[u8]) -> (r: Result<AllConnections, ArchiveError>)
    ensures
        match r {
            Ok(c) => spec_parse_connections_archive(b@) == Some(c@),
            Err(ArchiveError::SchemaMismatch) => !header_ok(b@, CONNECTIONS_SCHEMA_TAG)
                && spec_parse_connections_archive(b@) is None,
            Err(ArchiveError::Malformed) => header_ok(b@, CONNECTIONS_SCHEMA_TAG)
                && spec_parse_connections_archive(b@) is None,
        },
{
    let (m, p0) = match dec_u32(b, 0) {
        Some(v) => v,
        None => {
            return Err(ArchiveError::SchemaMismatch);
        },
    };
    if m != ARCHIVE_MAGIC {
        return Err(ArchiveError::SchemaMismatch);
    }
    let (t, p1) = match dec_u32(b, p0) {
        Some(v) => v,
        None => {
            return Err(ArchiveError::SchemaMismatch);
        },
    };
    if t != CONNECTIONS_SCHEMA_TAG {
        return Err(ArchiveError::SchemaMismatch);
    }
    let (stations, p2) = match dec_stations(b, p1) {
        Some(v) => v,
        None => {
            return Err(ArchiveError::Malformed);
        },
    };
    if p2 != b.len() {
        return Err(ArchiveError::Malformed);
    }
    let c = AllConnections { stations };
    proof {
        assert(c@.stations =~= c.stations@.map_values(|s: ConnectionsFromStation| s@));
    }
    Ok(c)
}

} // verus!
