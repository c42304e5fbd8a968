//! The merge engine: joining the seven relational tables into one
//! denormalized per-leg record stream, reconstructing missed-approach
//! altitudes, normalizing names, expanding wildcard transitions, and sorting.
//!
//! The record stream is modelled by `MergedView`, the mathematical image of
//! one record; every stage's contract states the exact view of its output.

use vstd::prelude::*;
use crate::listing::spec_zfill;
use crate::listing::zfill;
use crate::numbers::{spec_int_str, i64_to_string};
use crate::records::{
    Airport, MergedDataRow, Navaid, Runway, Terminal, TerminalLeg, TerminalLegEx, Waypoint,
    clone_opt_string,
};
use crate::text::str_eq;

verus! {

/// The seven relations the merge engine consumes.
pub struct Relations {
    pub airports: Vec<Airport>,
    pub runways: Vec<Runway>,
    pub terminals: Vec<Terminal>,
    pub legs: Vec<TerminalLeg>,
    pub legs_ex: Vec<TerminalLegEx>,
    pub waypoints: Vec<Waypoint>,
    pub navaids: Vec<Navaid>,
}

pub open spec fn opt_str_view(o: Option<String>) -> Option<Seq<char>> {
    match o {
        Option::Some(s) => Option::Some(s@),
        Option::None => Option::None,
    }
}

/// The mathematical image of one merged record.
pub ghost struct MergedView {
    pub terminal_id: int,
    pub icao: Seq<char>,
    pub rwy: Option<Seq<char>>,
    pub terminal: Seq<char>,
    pub type_field: Option<Seq<char>>,
    pub transition: Option<Seq<char>>,
    pub leg: Option<Seq<char>>,
    pub turn_direction: Option<Seq<char>>,
    pub name: Option<Seq<char>>,
    pub latitude: Option<int>,
    pub longitude: Option<int>,
    pub frequency: Option<Seq<char>>,
    pub nav_bear: Option<Seq<char>>,
    pub nav_dist: Option<Seq<char>>,
    pub heading: Option<Seq<char>>,
    pub dist: Option<Seq<char>>,
    pub cross_this_point: Option<Seq<char>>,
    pub altitude: Option<Seq<char>>,
    pub map: Option<int>,
    pub slope: Option<Seq<char>>,
    pub speed: Option<Seq<char>>,
    pub center_lat: Option<int>,
    pub center_lon: Option<int>,
    pub wpt_id: Option<int>,
    pub nav_id: Option<int>,
    pub center_id: Option<int>,
}

pub open spec fn opt_int(o: Option<i64>) -> Option<int> {
    match o {
        Option::Some(v) => Option::Some(v as int),
        Option::None => Option::None,
    }
}

pub open spec fn opt_int32(o: Option<i32>) -> Option<int> {
    match o {
        Option::Some(v) => Option::Some(v as int),
        Option::None => Option::None,
    }
}

/// The view of one merged record.
pub open spec fn view_of(r: MergedDataRow) -> MergedView {
    MergedView {
        terminal_id: r.terminal_id as int,
        icao: r.icao@,
        rwy: opt_str_view(r.rwy),
        terminal: r.terminal@,
        type_field: opt_str_view(r.type_field),
        transition: opt_str_view(r.transition),
        leg: opt_str_view(r.leg),
        turn_direction: opt_str_view(r.turn_direction),
        name: opt_str_view(r.name),
        latitude: opt_int(r.latitude),
        longitude: opt_int(r.longitude),
        frequency: opt_str_view(r.frequency),
        nav_bear: opt_str_view(r.nav_bear),
        nav_dist: opt_str_view(r.nav_dist),
        heading: opt_str_view(r.heading),
        dist: opt_str_view(r.dist),
        cross_this_point: opt_str_view(r.cross_this_point),
        altitude: opt_str_view(r.altitude),
        map: opt_int32(r.map),
        slope: opt_str_view(r.slope),
        speed: opt_str_view(r.speed),
        center_lat: opt_int(r.center_lat),
        center_lon: opt_int(r.center_lon),
        wpt_id: opt_int32(r.wpt_id),
        nav_id: opt_int32(r.nav_id),
        center_id: opt_int32(r.center_id),
    }
}

/// The views of a whole record stream.
pub open spec fn views_of(s: Seq<MergedDataRow>) -> Seq<MergedView> {
    s.map_values(|r: MergedDataRow| view_of(r))
}

/// The first extension row with the given id.
pub open spec fn find_ex(s: Seq<TerminalLegEx>, id: int) -> Option<TerminalLegEx>
    decreases s.len(),
{
    if s.len() == 0 {
        Option::None
    } else if s[0].id == id {
        Option::Some(s[0])
    } else {
        find_ex(s.drop_first(), id)
    }
}

/// The first terminal with the given id.
pub open spec fn find_terminal(s: Seq<Terminal>, id: int) -> Option<Terminal>
    decreases s.len(),
{
    if s.len() == 0 {
        Option::None
    } else if s[0].id == id {
        Option::Some(s[0])
    } else {
        find_terminal(s.drop_first(), id)
    }
}

/// The first airport with the given id.
pub open spec fn find_airport(s: Seq<Airport>, id: int) -> Option<Airport>
    decreases s.len(),
{
    if s.len() == 0 {
        Option::None
    } else if s[0].id == id {
        Option::Some(s[0])
    } else {
        find_airport(s.drop_first(), id)
    }
}

/// The first waypoint with the given id.
pub open spec fn find_waypoint(s: Seq<Waypoint>, id: int) -> Option<Waypoint>
    decreases s.len(),
{
    if s.len() == 0 {
        Option::None
    } else if s[0].id == id {
        Option::Some(s[0])
    } else {
        find_waypoint(s.drop_first(), id)
    }
}

/// The first navaid with the given id.
pub open spec fn find_navaid(s: Seq<Navaid>, id: int) -> Option<Navaid>
    decreases s.len(),
{
    if s.len() == 0 {
        Option::None
    } else if s[0].id == id {
        Option::Some(s[0])
    } else {
        find_navaid(s.drop_first(), id)
    }
}

/// The speed column: the truncated speed limit and its description
/// concatenated, either side alone when the other is absent.
pub open spec fn spec_speed(ex: Option<TerminalLegEx>) -> Option<Seq<char>> {
    match ex {
        Option::None => Option::None,
        Option::Some(e) => match (e.speed_limit, e.speed_limit_description) {
            (Option::Some(sl), Option::Some(d)) => Option::Some(spec_int_str(sl as int) + d@),
            (Option::Some(sl), Option::None) => Option::Some(spec_int_str(sl as int)),
            (Option::None, Option::Some(d)) => Option::Some(d@),
            (Option::None, Option::None) => Option::None,
        },
    }
}

/// The cross-this-point column after normalization: "1" for a fly-over leg,
/// absent otherwise (a "0" is cleared).
pub open spec fn spec_cross(ex: Option<TerminalLegEx>) -> Option<Seq<char>> {
    match ex {
        Option::Some(e) => if e.is_fly_over == Option::Some(true) {
            Option::Some("1"@)
        } else {
            Option::None
        },
        Option::None => Option::None,
    }
}

/// The view of the merged record built for one leg: the leg's own columns,
/// the terminal's name, runway and airport ICAO, the waypoint's ident and
/// coordinates, the navaid's ident as frequency, and the center waypoint's
/// coordinates.
pub open spec fn merged_row_view(
    leg: TerminalLeg,
    terminals: Seq<Terminal>,
    airports: Seq<Airport>,
    waypoints: Seq<Waypoint>,
    navaids: Seq<Navaid>,
    legs_ex: Seq<TerminalLegEx>,
) -> MergedView {
    let ex = find_ex(legs_ex, leg.id as int);
    let term = find_terminal(terminals, leg.terminal_id as int);
    let icao = match term {
        Option::Some(t) => match find_airport(airports, t.airport_id as int) {
            Option::Some(a) => a.icao@,
            Option::None => t.icao@,
        },
        Option::None => Seq::<char>::empty(),
    };
    let wp = match leg.wpt_id {
        Option::Some(w) => find_waypoint(waypoints, w as int),
        Option::None => Option::None,
    };
    let nav = match leg.nav_id {
        Option::Some(n) => find_navaid(navaids, n as int),
        Option::None => Option::None,
    };
    let center = match leg.center_id {
        Option::Some(c) => find_waypoint(waypoints, c as int),
        Option::None => Option::None,
    };
    MergedView {
        terminal_id: leg.terminal_id as int,
        icao: icao,
        rwy: match term {
            Option::Some(t) => opt_str_view(t.rwy),
            Option::None => Option::None,
        },
        terminal: match term {
            Option::Some(t) => t.name@,
            Option::None => Seq::<char>::empty(),
        },
        type_field: opt_str_view(leg.type_field),
        transition: opt_str_view(leg.transition),
        leg: opt_str_view(leg.track_code),
        turn_direction: opt_str_view(leg.turn_dir),
        name: match wp {
            Option::Some(w) => Option::Some(w.ident@),
            Option::None => Option::None,
        },
        latitude: match wp {
            Option::Some(w) => Option::Some(w.latitude as int),
            Option::None => opt_int(leg.wpt_lat),
        },
        longitude: match wp {
            Option::Some(w) => Option::Some(w.longitude as int),
            Option::None => opt_int(leg.wpt_lon),
        },
        frequency: match nav {
            Option::Some(n) => Option::Some(n.ident@),
            Option::None => Option::None,
        },
        nav_bear: opt_str_view(leg.nav_bear),
        nav_dist: opt_str_view(leg.nav_dist),
        heading: opt_str_view(leg.course),
        dist: opt_str_view(leg.distance),
        cross_this_point: spec_cross(ex),
        altitude: opt_str_view(leg.alt),
        map: Option::None,
        slope: opt_str_view(leg.vnav),
        speed: spec_speed(ex),
        center_lat: match center {
            Option::Some(w) => Option::Some(w.latitude as int),
            Option::None => Option::None,
        },
        center_lon: match center {
            Option::Some(w) => Option::Some(w.longitude as int),
            Option::None => Option::None,
        },
        wpt_id: opt_int32(leg.wpt_id),
        nav_id: opt_int32(leg.nav_id),
        center_id: opt_int32(leg.center_id),
    }
}

fn find_ex_idx(s: &Vec<TerminalLegEx>, id: i32) -> (r: Option<usize>)
    ensures
        match r {
            Option::Some(j) => j < s@.len() && find_ex(s@, id as int) == Option::Some(
                s@[j as int],
            ),
            Option::None => find_ex(s@, id as int) is None,
        },
{
    let mut i: usize = 0;
    proof {
        assert(s@.skip(0) =~= s@);
    }
    while i < s.len()
        invariant
            i <= s@.len(),
            find_ex(s@, id as int) == find_ex(s@.skip(i as int), id as int),
        decreases s@.len() - i,
    {
        proof {
            assert(s@.skip(i as int)[0] == s@[i as int]);
            assert(s@.skip(i as int).drop_first() =~= s@.skip(i as int + 1));
        }
        if s[i].id == id {
            return Option::Some(i);
        }
        i += 1;
    }
    proof {
        assert(s@.skip(i as int) =~= Seq::<TerminalLegEx>::empty());
    }
    Option::None
}

fn find_terminal_idx(s: &Vec<Terminal>, id: i32) -> (r: Option<usize>)
    ensures
        match r {
            Option::Some(j) => j < s@.len() && find_terminal(s@, id as int) == Option::Some(
                s@[j as int],
            ),
            Option::None => find_terminal(s@, id as int) is None,
        },
{
    let mut i: usize = 0;
    proof {
        assert(s@.skip(0) =~= s@);
    }
    while i < s.len()
        invariant
            i <= s@.len(),
            find_terminal(s@, id as int) == find_terminal(s@.skip(i as int), id as int),
        decreases s@.len() - i,
    {
        proof {
            assert(s@.skip(i as int)[0] == s@[i as int]);
            assert(s@.skip(i as int).drop_first() =~= s@.skip(i as int + 1));
        }
        if s[i].id == id {
            return Option::Some(i);
        }
        i += 1;
    }
    proof {
        assert(s@.skip(i as int) =~= Seq::<Terminal>::empty());
    }
    Option::None
}

fn find_airport_idx(s: &Vec<Airport>, id: i32) -> (r: Option<usize>)
    ensures
        match r {
            Option::Some(j) => j < s@.len() && find_airport(s@, id as int) == Option::Some(
                s@[j as int],
            ),
            Option::None => find_airport(s@, id as int) is None,
        },
{
    let mut i: usize = 0;
    proof {
        assert(s@.skip(0) =~= s@);
    }
    while i < s.len()
        invariant
            i <= s@.len(),
            find_airport(s@, id as int) == find_airport(s@.skip(i as int), id as int),
        decreases s@.len() - i,
    {
        proof {
            assert(s@.skip(i as int)[0] == s@[i as int]);
            assert(s@.skip(i as int).drop_first() =~= s@.skip(i as int + 1));
        }
        if s[i].id == id {
            return Option::Some(i);
        }
        i += 1;
    }
    proof {
        assert(s@.skip(i as int) =~= Seq::<Airport>::empty());
    }
    Option::None
}

fn find_waypoint_idx(s: &Vec<Waypoint>, id: i32) -> (r: Option<usize>)
    ensures
        match r {
            Option::Some(j) => j < s@.len() && find_waypoint(s@, id as int) == Option::Some(
                s@[j as int],
            ),
            Option::None => find_waypoint(s@, id as int) is None,
        },
{
    let mut i: usize = 0;
    proof {
        assert(s@.skip(0) =~= s@);
    }
    while i < s.len()
        invariant
            i <= s@.len(),
            find_waypoint(s@, id as int) == find_waypoint(s@.skip(i as int), id as int),
        decreases s@.len() - i,
    {
        proof {
            assert(s@.skip(i as int)[0] == s@[i as int]);
            assert(s@.skip(i as int).drop_first() =~= s@.skip(i as int + 1));
        }
        if s[i].id == id {
            return Option::Some(i);
        }
        i += 1;
    }
    proof {
        assert(s@.skip(i as int) =~= Seq::<Waypoint>::empty());
    }
    Option::None
}

fn find_navaid_idx(s: &Vec<Navaid>, id: i32) -> (r: Option<usize>)
    ensures
        match r {
            Option::Some(j) => j < s@.len() && find_navaid(s@, id as int) == Option::Some(
                s@[j as int],
            ),
            Option::None => find_navaid(s@, id as int) is None,
        },
{
    let mut i: usize = 0;
    proof {
        assert(s@.skip(0) =~= s@);
    }
    while i < s.len()
        invariant
            i <= s@.len(),
            find_navaid(s@, id as int) == find_navaid(s@.skip(i as int), id as int),
        decreases s@.len() - i,
    {
        proof {
            assert(s@.skip(i as int)[0] == s@[i as int]);
            assert(s@.skip(i as int).drop_first() =~= s@.skip(i as int + 1));
        }
        if s[i].id == id {
            return Option::Some(i);
        }
        i += 1;
    }
    proof {
        assert(s@.skip(i as int) =~= Seq::<Navaid>::empty());
    }
    Option::None
}

/// Builds the denormalized record for one leg.
fn merge_one(leg: &TerminalLeg, rel: &Relations) -> (r: MergedDataRow)
    ensures
        view_of(r) == merged_row_view(
            *leg,
            rel.terminals@,
            rel.airports@,
            rel.waypoints@,
            rel.navaids@,
            rel.legs_ex@,
        ),
{
    let ex_idx = find_ex_idx(&rel.legs_ex, leg.id);
    let term_idx = find_terminal_idx(&rel.terminals, leg.terminal_id);
    // speed and cross-this-point from the extension row
    let (speed, cross) = match ex_idx {
        Option::Some(e) => {
            let ex = &rel.legs_ex[e];
            let speed = match (&ex.speed_limit, &ex.speed_limit_description) {
                (Option::Some(sl), Option::Some(d)) => {
                    let mut s = i64_to_string(*sl as i64);
                    s.append(d.as_str());
                    Option::Some(s)
                },
                (Option::Some(sl), Option::None) => Option::Some(i64_to_string(*sl as i64)),
                (Option::None, Option::Some(d)) => Option::Some(d.clone()),
                (Option::None, Option::None) => Option::None,
            };
            let cross = match ex.is_fly_over {
                Option::Some(true) => Option::Some("1".to_owned()),
                _ => Option::None,
            };
            (speed, cross)
        },
        Option::None => (Option::None, Option::None),
    };
    // terminal name, runway, and airport ICAO
    let (icao, rwy, terminal) = match term_idx {
        Option::Some(t) => {
            let term = &rel.terminals[t];
            let icao = match find_airport_idx(&rel.airports, term.airport_id) {
                Option::Some(a) => rel.airports[a].icao.clone(),
                Option::None => term.icao.clone(),
            };
            (icao, clone_opt_string(&term.rwy), term.name.clone())
        },
        Option::None => (String::new(), Option::None, String::new()),
    };
    // waypoint, navaid and center lookups
    let (name, latitude, longitude) = match leg.wpt_id {
        Option::Some(w) => match find_waypoint_idx(&rel.waypoints, w) {
            Option::Some(j) => {
                let wp = &rel.waypoints[j];
                (
                    Option::Some(wp.ident.clone()),
                    Option::Some(wp.latitude),
                    Option::Some(wp.longitude),
                )
            },
            Option::None => (Option::None, leg.wpt_lat, leg.wpt_lon),
        },
        Option::None => (Option::None, leg.wpt_lat, leg.wpt_lon),
    };
    let frequency = match leg.nav_id {
        Option::Some(n) => match find_navaid_idx(&rel.navaids, n) {
            Option::Some(j) => Option::Some(rel.navaids[j].ident.clone()),
            Option::None => Option::None,
        },
        Option::None => Option::None,
    };
    let (center_lat, center_lon) = match leg.center_id {
        Option::Some(c) => match find_waypoint_idx(&rel.waypoints, c) {
            Option::Some(j) => (
                Option::Some(rel.waypoints[j].latitude),
                Option::Some(rel.waypoints[j].longitude),
            ),
            Option::None => (Option::None, Option::None),
        },
        Option::None => (Option::None, Option::None),
    };
    let r = MergedDataRow {
        terminal_id: leg.terminal_id,
        icao,
        rwy,
        terminal,
        type_field: clone_opt_string(&leg.type_field),
        transition: clone_opt_string(&leg.transition),
        leg: clone_opt_string(&leg.track_code),
        turn_direction: clone_opt_string(&leg.turn_dir),
        name,
        latitude,
        longitude,
        frequency,
        nav_bear: clone_opt_string(&leg.nav_bear),
        nav_dist: clone_opt_string(&leg.nav_dist),
        heading: clone_opt_string(&leg.course),
        dist: clone_opt_string(&leg.distance),
        cross_this_point: cross,
        altitude: clone_opt_string(&leg.alt),
        map: Option::None,
        slope: clone_opt_string(&leg.vnav),
        speed,
        center_lat,
        center_lon,
        wpt_id: leg.wpt_id,
        nav_id: leg.nav_id,
        center_id: leg.center_id,
    };
    proof {
        reveal_strlit("1");
    }
    r
}

/// Produces the denormalized record stream: one record per leg, joined with
/// its terminal, airport, waypoint, navaid and extension rows, the
/// cross-this-point column already normalized.
pub fn generate_merged_data(rel: &Relations) -> (r: Vec<MergedDataRow>)
    ensures
        r@.len() == rel.legs@.len(),
        forall|i: int|
            0 <= i < r@.len() ==> view_of(#[trigger] r@[i]) == merged_row_view(
                rel.legs@[i],
                rel.terminals@,
                rel.airports@,
                rel.waypoints@,
                rel.navaids@,
                rel.legs_ex@,
            ),
{
    let mut out: Vec<MergedDataRow> = Vec::new();
    let mut i: usize = 0;
    while i < rel.legs.len()
        invariant
            i <= rel.legs@.len(),
            out@.len() == i,
            forall|j: int|
                0 <= j < i ==> view_of(#[trigger] out@[j]) == merged_row_view(
                    rel.legs@[j],
                    rel.terminals@,
                    rel.airports@,
                    rel.waypoints@,
                    rel.navaids@,
                    rel.legs_ex@,
                ),
        decreases rel.legs@.len() - i,
    {
        let row = merge_one(&rel.legs[i], rel);
        out.push(row);
        i += 1;
    }
    out
}

/// A missed-approach record has the literal altitude "MAP".
pub open spec fn is_map_row(v: MergedView) -> bool {
    v.altitude == Option::Some("MAP"@)
}

/// The first terminal with the given ICAO.
pub open spec fn find_terminal_icao(s: Seq<Terminal>, icao: Seq<char>) -> Option<Terminal>
    decreases s.len(),
{
    if s.len() == 0 {
        Option::None
    } else if s[0].icao@ == icao {
        Option::Some(s[0])
    } else {
        find_terminal_icao(s.drop_first(), icao)
    }
}

/// The first runway of the airport with the given ident.
pub open spec fn find_runway_by(s: Seq<Runway>, aid: int, ident: Seq<char>) -> Option<Runway>
    decreases s.len(),
{
    if s.len() == 0 {
        Option::None
    } else if s[0].airport_id == aid && s[0].ident@ == ident {
        Option::Some(s[0])
    } else {
        find_runway_by(s.drop_first(), aid, ident)
    }
}

/// The first waypoint within ten units (1e-6 degree) of the coordinates in
/// both axes.
pub open spec fn find_near(s: Seq<Waypoint>, lat: int, lon: int) -> Option<Waypoint>
    decreases s.len(),
{
    if s.len() == 0 {
        Option::None
    } else if -10 < s[0].latitude - lat < 10 && -10 < s[0].longitude - lon < 10 {
        Option::Some(s[0])
    } else {
        find_near(s.drop_first(), lat, lon)
    }
}

/// The sequence without its dash characters.
pub open spec fn non_dash(s: Seq<char>) -> Seq<char>
    decreases s.len(),
{
    if s.len() == 0 {
        Seq::<char>::empty()
    } else {
        non_dash(s.drop_last()) + (if s.last() == '-' {
            Seq::<char>::empty()
        } else {
            seq![s.last()]
        })
    }
}

/// The synthetic waypoint name for a terminal: "RW" and the terminal name's
/// second to fourth characters with dashes removed.
pub open spec fn rw_name(term: Seq<char>) -> Seq<char> {
    if term.len() <= 1 {
        "RW"@
    } else {
        "RW"@ + non_dash(term.subrange(1, if term.len() < 4 { term.len() as int } else { 4 }))
    }
}

/// The two-character runway key of a record (an absent runway pads to "00").
pub open spec fn rwy2_of(v: MergedView) -> Seq<char> {
    spec_zfill(
        match v.rwy {
            Option::Some(r) => r,
            Option::None => Seq::<char>::empty(),
        },
        2,
    )
}

/// The runway row a missed-approach record resolves to.
pub open spec fn stage7_runway(v: MergedView, ts: Seq<Terminal>, rws: Seq<Runway>) -> Option<
    Runway,
> {
    match find_terminal_icao(ts, v.icao) {
        Option::Some(t) => find_runway_by(rws, t.airport_id as int, rwy2_of(v)),
        Option::None => Option::None,
    }
}

/// The record's view after the missed-approach pass touched it: the map flag
/// set; the name taken from a waypoint near its coordinates, or, failing
/// that, the runway's coordinates and a synthetic "RW" name.
pub open spec fn stage7_view(
    rows: Seq<MergedView>,
    i: int,
    ts: Seq<Terminal>,
    rws: Seq<Runway>,
    wps: Seq<Waypoint>,
) -> MergedView {
    let v = rows[i];
    if !is_map_row(v) {
        v
    } else {
        let v1 = MergedView { map: Option::Some(1), ..v };
        let rw = stage7_runway(v, ts, rws);
        match (v.latitude, v.longitude) {
            (Option::Some(la), Option::Some(lo)) => match find_near(wps, la, lo) {
                Option::Some(w) => MergedView { name: Option::Some(w.ident@), ..v1 },
                Option::None => match rw {
                    Option::Some(r) => MergedView {
                        name: Option::Some(rw_name(v.terminal)),
                        latitude: Option::Some(r.latitude as int),
                        longitude: Option::Some(r.longitude as int),
                        ..v1
                    },
                    Option::None => v1,
                },
            },
            _ => match rw {
                Option::Some(r) => MergedView {
                    name: Option::Some(rw_name(v.terminal)),
                    latitude: Option::Some(r.latitude as int),
                    longitude: Option::Some(r.longitude as int),
                    ..v1
                },
                Option::None => v1,
            },
        }
    }
}

/// The index at or before `j` of the nearest record with a non-empty
/// altitude, or -1.
pub open spec fn prev_alt_idx(rows: Seq<MergedView>, j: int) -> int
    decreases j + 1,
{
    if j < 0 || j >= rows.len() {
        -1
    } else if (match rows[j].altitude {
        Option::Some(a) => a.len() > 0,
        Option::None => false,
    }) {
        j
    } else {
        prev_alt_idx(rows, j - 1)
    }
}

/// One altitude-reconstruction request: everything the geodesic kernel
/// needs, and where its answer goes.
pub struct ReconRequest {
    pub index: usize,
    /// The nearest earlier non-empty altitude, as found in the stream.
    pub prev_alt: String,
    pub prev_lat: i64,
    pub prev_lon: i64,
    pub cur_lat: i64,
    pub cur_lon: i64,
    /// The record's vertical slope in degrees, as decimal text.
    pub slope: String,
    /// The resolved runway's elevation in thousandths of a foot.
    pub elev_milli: i64,
}

/// The mathematical image of a reconstruction request.
pub ghost struct ReconView {
    pub index: int,
    pub prev_alt: Seq<char>,
    pub prev_lat: int,
    pub prev_lon: int,
    pub cur_lat: int,
    pub cur_lon: int,
    pub slope: Seq<char>,
    pub elev: int,
}

pub open spec fn recon_view(r: ReconRequest) -> ReconView {
    ReconView {
        index: r.index as int,
        prev_alt: r.prev_alt@,
        prev_lat: r.prev_lat as int,
        prev_lon: r.prev_lon as int,
        cur_lat: r.cur_lat as int,
        cur_lon: r.cur_lon as int,
        slope: r.slope@,
        elev: r.elev_milli as int,
    }
}

pub open spec fn opt_recon_view(r: Option<ReconRequest>) -> Option<ReconView> {
    match r {
        Option::Some(q) => Option::Some(recon_view(q)),
        Option::None => Option::None,
    }
}

/// The request the missed-approach pass raises for a record, if any: the
/// record must carry "MAP" and a slope, resolve to a runway, have
/// coordinates after the pass, and an earlier record must offer a non-empty
/// altitude (scanning from the previous record, or from the record itself
/// when it is first).
pub open spec fn stage7_request(
    rows: Seq<MergedView>,
    i: int,
    ts: Seq<Terminal>,
    rws: Seq<Runway>,
    wps: Seq<Waypoint>,
) -> Option<ReconView> {
    let v = rows[i];
    if !is_map_row(v) {
        Option::None
    } else {
        let nv = stage7_view(rows, i, ts, rws, wps);
        match (v.slope, stage7_runway(v, ts, rws)) {
            (Option::Some(sl), Option::Some(rwy)) => {
                let start = if i == 0 {
                    0
                } else {
                    i - 1
                };
                let p = prev_alt_idx(rows, start);
                if p < 0 {
                    Option::None
                } else {
                    match (rows[p].latitude, rows[p].longitude, nv.latitude, nv.longitude) {
                        (
                            Option::Some(pla),
                            Option::Some(plo),
                            Option::Some(cla),
                            Option::Some(clo),
                        ) => Option::Some(
                            ReconView {
                                index: i,
                                prev_alt: rows[p].altitude.unwrap(),
                                prev_lat: pla,
                                prev_lon: plo,
                                cur_lat: cla,
                                cur_lon: clo,
                                slope: sl,
                                elev: rwy.elevation_milli as int,
                            },
                        ),
                        _ => Option::None,
                    }
                }
            },
            _ => Option::None,
        }
    }
}

fn find_terminal_icao_idx(s: &Vec<Terminal>, icao: &str) -> (r: Option<usize>)
    ensures
        match r {
            Option::Some(j) => j < s@.len() && find_terminal_icao(s@, icao@) == Option::Some(
                s@[j as int],
            ),
            Option::None => find_terminal_icao(s@, icao@) is None,
        },
{
    let mut i: usize = 0;
    proof {
        assert(s@.skip(0) =~= s@);
    }
    while i < s.len()
        invariant
            i <= s@.len(),
            find_terminal_icao(s@, icao@) == find_terminal_icao(s@.skip(i as int), icao@),
        decreases s@.len() - i,
    {
        proof {
            assert(s@.skip(i as int)[0] == s@[i as int]);
            assert(s@.skip(i as int).drop_first() =~= s@.skip(i as int + 1));
        }
        if str_eq(s[i].icao.as_str(), icao) {
            return Option::Some(i);
        }
        i += 1;
    }
    proof {
        assert(s@.skip(i as int) =~= Seq::<Terminal>::empty());
    }
    Option::None
}

fn find_runway_by_idx(s: &Vec<Runway>, aid: i32, ident: &str) -> (r: Option<usize>)
    ensures
        match r {
            Option::Some(j) => j < s@.len() && find_runway_by(s@, aid as int, ident@)
                == Option::Some(s@[j as int]),
            Option::None => find_runway_by(s@, aid as int, ident@) is None,
        },
{
    let mut i: usize = 0;
    proof {
        assert(s@.skip(0) =~= s@);
    }
    while i < s.len()
        invariant
            i <= s@.len(),
            find_runway_by(s@, aid as int, ident@) == find_runway_by(
                s@.skip(i as int),
                aid as int,
                ident@,
            ),
        decreases s@.len() - i,
    {
        proof {
            assert(s@.skip(i as int)[0] == s@[i as int]);
            assert(s@.skip(i as int).drop_first() =~= s@.skip(i as int + 1));
        }
        if s[i].airport_id == aid && str_eq(s[i].ident.as_str(), ident) {
            return Option::Some(i);
        }
        i += 1;
    }
    proof {
        assert(s@.skip(i as int) =~= Seq::<Runway>::empty());
    }
    Option::None
}

fn find_near_idx(s: &Vec<Waypoint>, lat: i64, lon: i64) -> (r: Option<usize>)
    ensures
        match r {
            Option::Some(j) => j < s@.len() && find_near(s@, lat as int, lon as int)
                == Option::Some(s@[j as int]),
            Option::None => find_near(s@, lat as int, lon as int) is None,
        },
{
    let mut i: usize = 0;
    proof {
        assert(s@.skip(0) =~= s@);
    }
    while i < s.len()
        invariant
            i <= s@.len(),
            find_near(s@, lat as int, lon as int) == find_near(
                s@.skip(i as int),
                lat as int,
                lon as int,
            ),
        decreases s@.len() - i,
    {
        proof {
            assert(s@.skip(i as int)[0] == s@[i as int]);
            assert(s@.skip(i as int).drop_first() =~= s@.skip(i as int + 1));
        }
        let dla = (s[i].latitude as i128) - (lat as i128);
        let dlo = (s[i].longitude as i128) - (lon as i128);
        if -10 < dla && dla < 10 && -10 < dlo && dlo < 10 {
            return Option::Some(i);
        }
        i += 1;
    }
    proof {
        assert(s@.skip(i as int) =~= Seq::<Waypoint>::empty());
    }
    Option::None
}

/// Builds the synthetic "RW" name from a terminal name.
fn rw_name_string(term: &str) -> (r: String)
    ensures
        r@ == rw_name(term@),
{
    let tlen = term.unicode_len();
    let mut nm = String::new();
    nm.append("RW");
    if tlen <= 1 {
        return nm;
    }
    let hi = if tlen < 4 {
        tlen
    } else {
        4
    };
    let ghost whole = term@.subrange(1, hi as int);
    let mut k: usize = 1;
    proof {
        assert(term@.subrange(1, 1) =~= Seq::<char>::empty());
        assert(nm@ =~= "RW"@ + non_dash(term@.subrange(1, 1)));
    }
    while k < hi
        invariant
            1 <= k <= hi <= term@.len(),
            hi == (if term@.len() < 4 { term@.len() as int } else { 4 }),
            nm@ == "RW"@ + non_dash(term@.subrange(1, k as int)),
        decreases hi - k,
    {
        proof {
            assert(term@.subrange(1, k as int + 1).drop_last() =~= term@.subrange(1, k as int));
            assert(term@.subrange(1, k as int + 1).last() == term@[k as int]);
        }
        let c = term.get_char(k);
        if c != '-' {
            nm.append(term.substring_char(k, k + 1));
            proof {
                assert(term@.subrange(k as int, k as int + 1) =~= seq![term@[k as int]]);
                assert(nm@ =~= "RW"@ + non_dash(term@.subrange(1, k as int + 1)));
            }
        } else {
            proof {
                assert(nm@ =~= "RW"@ + non_dash(term@.subrange(1, k as int + 1)));
            }
        }
        k += 1;
    }
    nm
}

pub proof fn lemma_prev_alt_idx_props(rows: Seq<MergedView>, j: int)
    requires
        -1 <= j < rows.len(),
    ensures
        ({
            let p = prev_alt_idx(rows, j);
            &&& -1 <= p <= j
            &&& p >= 0 ==> (rows[p].altitude is Some && rows[p].altitude.unwrap().len() > 0)
        }),
    decreases j + 1,
{
    if j >= 0 && !(match rows[j].altitude {
        Option::Some(a) => a.len() > 0,
        Option::None => false,
    }) {
        lemma_prev_alt_idx_props(rows, j - 1);
    }
}

/// Scans from `start` downward for the nearest record with a non-empty
/// altitude.
fn prev_alt_search(rows: &Vec<MergedDataRow>, start: usize) -> (r: Option<usize>)
    requires
        start < rows@.len(),
    ensures
        match r {
            Option::Some(p) => p <= start && prev_alt_idx(views_of(rows@), start as int)
                == p as int,
            Option::None => prev_alt_idx(views_of(rows@), start as int) == -1,
        },
{
    let ghost v = views_of(rows@);
    let mut p = start;
    loop
        invariant
            p <= start < rows@.len(),
            v == views_of(rows@),
            v.len() == rows@.len(),
            prev_alt_idx(v, start as int) == prev_alt_idx(v, p as int),
        decreases p,
    {
        proof {
            assert(v[p as int] == view_of(rows@[p as int]));
        }
        let nonempty = match &rows[p].altitude {
            Option::Some(a) => !a.as_str().is_empty(),
            Option::None => false,
        };
        if nonempty {
            return Option::Some(p);
        }
        proof {
            assert(prev_alt_idx(v, p as int) == prev_alt_idx(v, p as int - 1));
        }
        if p == 0 {
            return Option::None;
        }
        p -= 1;
    }
}

/// One step of the missed-approach pass on record `i`: flags the record,
/// resolves its name and coordinates, and raises the reconstruction request
/// when the record needs the geodesic kernel. Records other than `i` are
/// untouched.
pub fn stage7_step(
    rows: &mut Vec<MergedDataRow>,
    i: usize,
    terminals: &Vec<Terminal>,
    runways: &Vec<Runway>,
    waypoints: &Vec<Waypoint>,
) -> (r: Option<ReconRequest>)
    requires
        i < old(rows)@.len(),
    ensures
        final(rows)@.len() == old(rows)@.len(),
        forall|j: int| 0 <= j < old(rows)@.len() && j != i ==> final(rows)@[j] == old(rows)@[j],
        view_of(final(rows)@[i as int]) == stage7_view(
            views_of(old(rows)@),
            i as int,
            terminals@,
            runways@,
            waypoints@,
        ),
        opt_recon_view(r) == stage7_request(
            views_of(old(rows)@),
            i as int,
            terminals@,
            runways@,
            waypoints@,
        ),
{
    let ghost v = views_of(old(rows)@);
    proof {
        assert(v[i as int] == view_of(old(rows)@[i as int]));
    }
    let is_map = match &rows[i].altitude {
        Option::Some(a) => str_eq(a.as_str(), "MAP"),
        Option::None => false,
    };
    proof {
        reveal_strlit("MAP");
        assert(is_map == is_map_row(v[i as int]));
    }
    if !is_map {
        proof {
            assert(stage7_view(v, i as int, terminals@, runways@, waypoints@) == v[i as int]);
        }
        return Option::None;
    }
    // resolve the runway
    let rwy2 = match &rows[i].rwy {
        Option::Some(rw) => zfill(rw.as_str(), 2),
        Option::None => zfill("", 2),
    };
    proof {
        reveal_strlit("");
        assert(""@ =~= Seq::<char>::empty());
        assert(rwy2@ == rwy2_of(v[i as int]));
    }
    let runway_idx = match find_terminal_icao_idx(terminals, rows[i].icao.as_str()) {
        Option::Some(t) => find_runway_by_idx(runways, terminals[t].airport_id, rwy2.as_str()),
        Option::None => Option::None,
    };
    proof {
        match runway_idx {
            Option::Some(j) => {
                assert(stage7_runway(v[i as int], terminals@, runways@) == Option::Some(
                    runways@[j as int],
                ));
            },
            Option::None => {
                assert(stage7_runway(v[i as int], terminals@, runways@) is None);
            },
        }
    }
    // the record's new value
    let mut nr = rows[i].duplicate();
    nr.map = Option::Some(1);
    let coords_present = match (&nr.latitude, &nr.longitude) {
        (Option::Some(_), Option::Some(_)) => true,
        _ => false,
    };
    let mut near_found = false;
    if coords_present {
        let la = nr.latitude.unwrap();
        let lo = nr.longitude.unwrap();
        match find_near_idx(waypoints, la, lo) {
            Option::Some(w) => {
                nr.name = Option::Some(waypoints[w].ident.clone());
                near_found = true;
            },
            Option::None => {},
        }
    }
    if !near_found {
        match runway_idx {
            Option::Some(j) => {
                nr.latitude = Option::Some(runways[j].latitude);
                nr.longitude = Option::Some(runways[j].longitude);
                nr.name = Option::Some(rw_name_string(rows[i].terminal.as_str()));
            },
            Option::None => {},
        }
    }
    proof {
        assert(view_of(nr) == stage7_view(v, i as int, terminals@, runways@, waypoints@));
    }
    // the reconstruction request
    let mut request: Option<ReconRequest> = Option::None;
    let has_slope = match &rows[i].slope {
        Option::Some(_) => true,
        Option::None => false,
    };
    if has_slope {
        match runway_idx {
            Option::Some(j) => {
                let start = if i == 0 {
                    0
                } else {
                    i - 1
                };
                match prev_alt_search(rows, start) {
                    Option::Some(p) => {
                        proof {
                            lemma_prev_alt_idx_props(v, start as int);
                        }
                        let prev_ok = match (&rows[p].latitude, &rows[p].longitude) {
                            (Option::Some(_), Option::Some(_)) => true,
                            _ => false,
                        };
                        let cur_ok = match (&nr.latitude, &nr.longitude) {
                            (Option::Some(_), Option::Some(_)) => true,
                            _ => false,
                        };
                        if prev_ok && cur_ok {
                            proof {
                                assert(v[p as int] == view_of(rows@[p as int]));
                            }
                            request = Option::Some(
                                ReconRequest {
                                    index: i,
                                    prev_alt: match &rows[p].altitude {
                                        Option::Some(a) => a.clone(),
                                        Option::None => String::new(),
                                    },
                                    prev_lat: rows[p].latitude.unwrap(),
                                    prev_lon: rows[p].longitude.unwrap(),
                                    cur_lat: nr.latitude.unwrap(),
                                    cur_lon: nr.longitude.unwrap(),
                                    slope: match &rows[i].slope {
                                        Option::Some(s) => s.clone(),
                                        Option::None => String::new(),
                                    },
                                    elev_milli: runways[j].elevation_milli,
                                },
                            );
                        }
                    },
                    Option::None => {},
                }
            },
            Option::None => {},
        }
    }
    proof {
        assert(opt_recon_view(request) == stage7_request(
            v,
            i as int,
            terminals@,
            runways@,
            waypoints@,
        ));
    }
    rows.set(i, nr);
    proof {
        assert forall|j: int| 0 <= j < old(rows)@.len() && j != i implies final(rows)@[j] == old(
            rows,
        )@[j] by {}
        assert(view_of(final(rows)@[i as int]) == stage7_view(
            v,
            i as int,
            terminals@,
            runways@,
            waypoints@,
        ));
    }
    request
}

/// The rounding the altitude write applies: to the nearest whole foot, half
/// away from zero.
pub open spec fn spec_round_milli(m: int) -> int {
    if m >= 0 {
        (m + 500) / 1000
    } else {
        -(((-m) + 500) / 1000)
    }
}

/// The reconstructed altitude in feet: the kernel's value rounded when it
/// lies in the accepted band, else the runway elevation rounded plus fifty.
pub open spec fn spec_recon_alt(c: int, e: int) -> int {
    if e + 50000 <= c && c < 16000000 {
        spec_round_milli(c)
    } else {
        spec_round_milli(e) + 50
    }
}

fn round_milli(m: i64) -> (r: i64)
    ensures
        r as int == spec_round_milli(m as int),
{
    if m >= 0 {
        let u = ((m as u64) + 500) / 1000;
        u as i64
    } else {
        let mag = (-(m as i128)) as u64;
        let u = (mag + 500) / 1000;
        -(u as i64)
    }
}

/// Writes the kernel's answer back: the altitude of the requested record
/// becomes the clamped, rounded reconstruction; no answer leaves the stream
/// unchanged.
pub fn stage7_apply(rows: &mut Vec<MergedDataRow>, req: &ReconRequest, calc_milli: Option<i64>)
    requires
        req.index < old(rows)@.len(),
    ensures
        final(rows)@.len() == old(rows)@.len(),
        forall|j: int|
            0 <= j < old(rows)@.len() && j != req.index ==> final(rows)@[j] == old(rows)@[j],
        match calc_milli {
            Option::Some(c) => view_of(final(rows)@[req.index as int]) == MergedView {
                altitude: Option::Some(
                    spec_int_str(spec_recon_alt(c as int, req.elev_milli as int)),
                ),
                ..view_of(old(rows)@[req.index as int])
            },
            Option::None => final(rows)@ == old(rows)@,
        },
{
    match calc_milli {
        Option::Some(c) => {
            let ce = c as i128;
            let ee = req.elev_milli as i128;
            let alt: i64 = if ee + 50000 <= ce && ce < 16000000 {
                round_milli(c)
            } else {
                round_milli(req.elev_milli) + 50
            };
            proof {
                assert(alt as int == spec_recon_alt(c as int, req.elev_milli as int));
            }
            let mut nr = rows[req.index].duplicate();
            nr.altitude = Option::Some(i64_to_string(alt));
            rows.set(req.index, nr);
        },
        Option::None => {
            proof {
                assert(final(rows)@ =~= old(rows)@);
            }
        },
    }
}

/// The fixed name-replacement table.
pub open spec fn spec_replace_name(n: Seq<char>) -> Seq<char> {
    if n == "ZJ400"@ {
        "RW15"@
    } else if n == "HJ600"@ {
        "RW06"@
    } else if n == "QT800"@ {
        "RW27"@
    } else if n == "RQ610"@ {
        "RW04"@
    } else if n == "SC600"@ {
        "RW33"@
    } else if n == "TK800"@ {
        "RW33"@
    } else {
        n
    }
}

/// A record after name replacement.
pub open spec fn stage8_view(v: MergedView) -> MergedView {
    match v.name {
        Option::Some(n) => MergedView { name: Option::Some(spec_replace_name(n)), ..v },
        Option::None => v,
    }
}

/// The runway a transition of the form `RW<rest>` names, `rest` non-empty.
pub open spec fn rw_capture(t: Seq<char>) -> Option<Seq<char>> {
    if t.len() >= 3 && crate::text::is_prefix("RW"@, t) {
        Option::Some(t.skip(2))
    } else {
        Option::None
    }
}

/// A record after the transition-derived runway stage: a record without a
/// runway whose transition names one takes that runway and type "5".
pub open spec fn stage9_view(v: MergedView) -> MergedView {
    if v.rwy is None && (match v.transition {
        Option::Some(t) => rw_capture(t) is Some,
        Option::None => false,
    }) {
        MergedView {
            rwy: Option::Some(rw_capture(v.transition.unwrap()).unwrap()),
            type_field: Option::Some("5"@),
            ..v
        }
    } else {
        v
    }
}

/// A wildcard record: transition "ALL" and no runway.
pub open spec fn row_is_all(v: MergedView) -> bool {
    v.transition == Option::Some("ALL"@) && v.rwy is None
}

/// The runway captures of every other record of the same (icao, terminal)
/// group, from position `j` on.
pub open spec fn group_caps(
    rows: Seq<MergedView>,
    icao: Seq<char>,
    term: Seq<char>,
    excl: int,
    j: int,
) -> Seq<Seq<char>>
    decreases rows.len() - j,
{
    if j < 0 || j >= rows.len() {
        Seq::empty()
    } else {
        (if j != excl && rows[j].icao == icao && rows[j].terminal == term && (match rows[j].transition {
            Option::Some(t) => rw_capture(t) is Some,
            Option::None => false,
        }) {
            seq![rw_capture(rows[j].transition.unwrap()).unwrap()]
        } else {
            Seq::empty()
        }) + group_caps(rows, icao, term, excl, j + 1)
    }
}

/// Whether the wildcard record at `i` expands (its group offers at least one
/// runway).
pub open spec fn expands(rows: Seq<MergedView>, i: int) -> bool {
    row_is_all(rows[i]) && group_caps(rows, rows[i].icao, rows[i].terminal, i, 0).len() > 0
}

/// The expanded clones of a wildcard record, one per captured runway.
pub open spec fn clones_of(v: MergedView, caps: Seq<Seq<char>>) -> Seq<MergedView> {
    caps.map_values(
        |c: Seq<char>|
            MergedView { rwy: Option::Some(c), type_field: Option::Some("5"@), ..v },
    )
}

/// The records kept in place by the wildcard expansion, from `j` on.
pub open spec fn stage10_kept(rows: Seq<MergedView>, j: int) -> Seq<MergedView>
    decreases rows.len() - j,
{
    if j < 0 || j >= rows.len() {
        Seq::empty()
    } else {
        (if !expands(rows, j) {
            seq![rows[j]]
        } else {
            Seq::empty()
        }) + stage10_kept(rows, j + 1)
    }
}

/// The clone records the wildcard expansion appends, from `j` on.
pub open spec fn stage10_news(rows: Seq<MergedView>, j: int) -> Seq<MergedView>
    decreases rows.len() - j,
{
    if j < 0 || j >= rows.len() {
        Seq::empty()
    } else {
        (if expands(rows, j) {
            clones_of(rows[j], group_caps(rows, rows[j].icao, rows[j].terminal, j, 0))
        } else {
            Seq::empty()
        }) + stage10_news(rows, j + 1)
    }
}

/// The record stream after wildcard expansion: the kept records in order,
/// then every expanded record's clones in order.
pub open spec fn stage10_views(rows: Seq<MergedView>) -> Seq<MergedView> {
    stage10_kept(rows, 0) + stage10_news(rows, 0)
}

/// A record after the IF-leg name fill: an IF leg with a runway and no name
/// is named for the runway, zero-padded when it is numeric.
pub open spec fn stage11_view(v: MergedView) -> MergedView {
    if v.rwy is Some && v.leg == Option::Some("IF"@) && v.name is None {
        let r = v.rwy.unwrap();
        MergedView {
            name: Option::Some(
                if r.len() > 0 && crate::numbers::is_digit_seq(r) {
                    "RW"@ + spec_zfill(r, 2)
                } else {
                    "RW"@ + r
                },
            ),
            ..v
        }
    } else {
        v
    }
}

/// Order on optional keys: an absent value sorts before every present one.
pub open spec fn opt_seq_le(a: Option<Seq<char>>, b: Option<Seq<char>>) -> bool {
    match (a, b) {
        (Option::None, _) => true,
        (Option::Some(_), Option::None) => false,
        (Option::Some(x), Option::Some(y)) => crate::text::seq_char_le(x, y),
    }
}

/// The (icao, terminal, rwy) sort order of the stream.
pub open spec fn row_le(a: MergedView, b: MergedView) -> bool {
    ||| crate::text::seq_char_lt(a.icao, b.icao)
    ||| (a.icao == b.icao && (crate::text::seq_char_lt(a.terminal, b.terminal) || (a.terminal
        == b.terminal && opt_seq_le(a.rwy, b.rwy))))
}

/// Inserts a record after every record not ordered after it, so that
/// repeated insertion is a stable sort.
pub open spec fn insert_row(s: Seq<MergedView>, x: MergedView) -> Seq<MergedView>
    decreases s.len(),
{
    if s.len() == 0 {
        seq![x]
    } else if !row_le(s[0], x) {
        seq![x] + s
    } else {
        seq![s[0]] + insert_row(s.drop_first(), x)
    }
}

/// Stable sort of the stream by (icao, terminal, rwy).
pub open spec fn sort_rows(s: Seq<MergedView>) -> Seq<MergedView>
    decreases s.len(),
{
    if s.len() == 0 {
        Seq::empty()
    } else {
        insert_row(sort_rows(s.drop_last()), s.last())
    }
}

/// The whole tail of the merge: name replacement, transition-derived
/// runways, wildcard expansion, IF-name fill, and the final sort.
pub open spec fn spec_finalize(vs: Seq<MergedView>) -> Seq<MergedView> {
    let a = vs.map_values(|v: MergedView| stage9_view(stage8_view(v)));
    let b = stage10_views(a).map_values(|v: MergedView| stage11_view(v));
    sort_rows(b)
}

/// Name replacement and transition-derived runway for one record.
fn stage89_one(row: &MergedDataRow) -> (r: MergedDataRow)
    ensures
        view_of(r) == stage9_view(stage8_view(view_of(*row))),
{
    let mut nr = row.duplicate();
    match &nr.name {
        Option::Some(n) => {
            let replaced = if str_eq(n.as_str(), "ZJ400") {
                Option::Some("RW15")
            } else if str_eq(n.as_str(), "HJ600") {
                Option::Some("RW06")
            } else if str_eq(n.as_str(), "QT800") {
                Option::Some("RW27")
            } else if str_eq(n.as_str(), "RQ610") {
                Option::Some("RW04")
            } else if str_eq(n.as_str(), "SC600") {
                Option::Some("RW33")
            } else if str_eq(n.as_str(), "TK800") {
                Option::Some("RW33")
            } else {
                Option::None
            };
            match replaced {
                Option::Some(s) => {
                    nr.name = Option::Some(s.to_owned());
                },
                Option::None => {},
            }
        },
        Option::None => {},
    }
    proof {
        assert(view_of(nr) == stage8_view(view_of(*row)));
    }
    let no_rwy = match &nr.rwy {
        Option::Some(_) => false,
        Option::None => true,
    };
    if no_rwy {
        let cap = match &nr.transition {
            Option::Some(t) => {
                proof {
                    reveal_strlit("RW");
                }
                if t.as_str().unicode_len() >= 3 && crate::text::starts_with_str(t.as_str(), "RW")
                {
                    let c = t.as_str().substring_char(2, t.as_str().unicode_len());
                    proof {
                        assert(c@ =~= t@.skip(2));
                        assert(rw_capture(t@) == Option::Some(c@));
                    }
                    Option::Some(c.to_owned())
                } else {
                    proof {
                        assert(rw_capture(t@) is None);
                    }
                    Option::None
                }
            },
            Option::None => Option::None,
        };
        match cap {
            Option::Some(c) => {
                nr.rwy = Option::Some(c);
                nr.type_field = Option::Some("5".to_owned());
            },
            Option::None => {},
        }
    }
    proof {
        assert(view_of(nr) == stage9_view(stage8_view(view_of(*row))));
    }
    nr
}

/// The IF-leg name fill for one record.
fn stage11_one(row: &MergedDataRow) -> (r: MergedDataRow)
    ensures
        view_of(r) == stage11_view(view_of(*row)),
{
    let mut nr = row.duplicate();
    let applies = match (&nr.rwy, &nr.leg, &nr.name) {
        (Option::Some(_), Option::Some(l), Option::None) => str_eq(l.as_str(), "IF"),
        _ => false,
    };
    if applies {
        let rw = match &nr.rwy {
            Option::Some(r) => r.clone(),
            Option::None => String::new(),
        };
        let rlen = rw.as_str().unicode_len();
        let all_digits = crate::text::scan_digits(rw.as_str(), 0) == rlen;
        proof {
            crate::text::lemma_digit_run_end(rw@, 0);
            if crate::numbers::is_digit_seq(rw@) {
                assert(crate::text::digit_run_end(rw@, 0) == rlen as int) by {
                    if crate::text::digit_run_end(rw@, 0) < rlen as int {
                        assert(!crate::text::char_is_digit(
                            rw@[crate::text::digit_run_end(rw@, 0)],
                        ));
                    }
                }
            }
            assert(all_digits == crate::numbers::is_digit_seq(rw@));
        }
        let mut nm = String::new();
        nm.append("RW");
        if rlen > 0 && all_digits {
            nm.append(zfill(rw.as_str(), 2).as_str());
            proof {
                assert(nm@ =~= "RW"@ + spec_zfill(rw@, 2));
            }
        } else {
            nm.append(rw.as_str());
            proof {
                assert(nm@ =~= "RW"@ + rw@);
            }
        }
        nr.name = Option::Some(nm);
    }
    proof {
        assert(view_of(nr) == stage11_view(view_of(*row)));
    }
    nr
}

/// The sort order, executably.
fn row_le_exec(a: &MergedDataRow, b: &MergedDataRow) -> (r: bool)
    ensures
        r == row_le(view_of(*a), view_of(*b)),
{
    if crate::text::str_lt(a.icao.as_str(), b.icao.as_str()) {
        true
    } else if !str_eq(a.icao.as_str(), b.icao.as_str()) {
        false
    } else if crate::text::str_lt(a.terminal.as_str(), b.terminal.as_str()) {
        true
    } else if !str_eq(a.terminal.as_str(), b.terminal.as_str()) {
        false
    } else {
        match (&a.rwy, &b.rwy) {
            (Option::None, _) => true,
            (Option::Some(_), Option::None) => false,
            (Option::Some(x), Option::Some(y)) => crate::text::str_le(x.as_str(), y.as_str()),
        }
    }
}

proof fn lemma_insert_row_at(s: Seq<MergedView>, x: MergedView, pos: int)
    requires
        0 <= pos <= s.len(),
        forall|j: int| 0 <= j < pos ==> row_le(#[trigger] s[j], x),
        pos < s.len() ==> !row_le(s[pos], x),
    ensures
        insert_row(s, x) == s.take(pos) + seq![x] + s.skip(pos),
    decreases pos,
{
    if pos == 0 {
        assert(insert_row(s, x) =~= s.take(0) + seq![x] + s.skip(0));
    } else {
        lemma_insert_row_at(s.drop_first(), x, pos - 1);
        assert(s.drop_first().take(pos - 1) =~= s.take(pos).drop_first());
        assert(s.drop_first().skip(pos - 1) =~= s.skip(pos));
        assert(seq![s[0]] + insert_row(s.drop_first(), x) =~= s.take(pos) + seq![x] + s.skip(pos));
    }
}

/// Inserts one record into the sorted stream, after records that do not
/// order after it.
fn insert_row_exec(v: &mut Vec<MergedDataRow>, x: MergedDataRow)
    ensures
        views_of(final(v)@) == insert_row(views_of(old(v)@), view_of(x)),
{
    let mut pos: usize = 0;
    while pos < v.len() && row_le_exec(&v[pos], &x)
        invariant
            pos <= v@.len(),
            forall|j: int| 0 <= j < pos ==> row_le(#[trigger] views_of(v@)[j], view_of(x)),
            v == old(v),
        decreases v@.len() - pos,
    {
        proof {
            assert(views_of(v@)[pos as int] == view_of(v@[pos as int]));
        }
        pos += 1;
    }
    proof {
        if pos < v@.len() {
            assert(views_of(v@)[pos as int] == view_of(v@[pos as int]));
        }
        lemma_insert_row_at(views_of(v@), view_of(x), pos as int);
    }
    let ghost pre = v@;
    v.insert(pos, x);
    proof {
        assert(views_of(v@) =~= views_of(pre).take(pos as int) + seq![view_of(v@[pos as int])]
            + views_of(pre).skip(pos as int));
    }
}

/// The closing stages of the merge: name replacement, transition-derived
/// runways, wildcard-transition expansion, IF-leg name fill, and the stable
/// sort by (icao, terminal, rwy).
#[verifier::rlimit(100)]
#[verifier::spinoff_prover]
pub fn finalize_merged_data(rows: Vec<MergedDataRow>) -> (r: Vec<MergedDataRow>)
    ensures
        views_of(r@) == spec_finalize(views_of(rows@)),
{
    // name replacement and transition-derived runways
    let ghost vs0 = views_of(rows@);
    let mut a: Vec<MergedDataRow> = Vec::new();
    let mut i: usize = 0;
    while i < rows.len()
        invariant
            i <= rows@.len(),
            vs0 == views_of(rows@),
            vs0.len() == rows@.len(),
            a@.len() == i,
            forall|j: int|
                0 <= j < i ==> views_of(a@)[j] == stage9_view(stage8_view(#[trigger] vs0[j])),
        decreases rows@.len() - i,
    {
        let nr = stage89_one(&rows[i]);
        let ghost pre = a@;
        a.push(nr);
        proof {
            assert(views_of(a@) =~= views_of(pre).push(view_of(a@[i as int])));
            assert(forall|j: int| 0 <= j < i ==> views_of(a@)[j] == views_of(pre)[j]);
        }
        i += 1;
    }
    let ghost va = views_of(a@);
    proof {
        assert(va =~= vs0.map_values(|v: MergedView| stage9_view(stage8_view(v))));
    }
    // wildcard expansion
    let mut kept: Vec<MergedDataRow> = Vec::new();
    let mut news: Vec<MergedDataRow> = Vec::new();
    let mut i: usize = 0;
    proof {
        assert(views_of(kept@) =~= Seq::<MergedView>::empty());
        assert(views_of(news@) =~= Seq::<MergedView>::empty());
    }
    while i < a.len()
        invariant
            i <= a@.len(),
            va == views_of(a@),
            va.len() == a@.len(),
            stage10_kept(va, 0) == views_of(kept@) + stage10_kept(va, i as int),
            stage10_news(va, 0) == views_of(news@) + stage10_news(va, i as int),
        decreases a@.len() - i,
    {
        proof {
            assert(va[i as int] == view_of(a@[i as int]));
        }
        let is_all = match (&a[i].transition, &a[i].rwy) {
            (Option::Some(t), Option::None) => str_eq(t.as_str(), "ALL"),
            _ => false,
        };
        proof {
            assert(is_all == row_is_all(va[i as int]));
        }
        let mut caps: Vec<String> = Vec::new();
        if is_all {
            // gather the group's runway captures
            let ghost gicao = va[i as int].icao;
            let ghost gterm = va[i as int].terminal;
            let mut j: usize = 0;
            proof {
                assert(caps.deep_view() =~= Seq::<Seq<char>>::empty());
            }
            while j < a.len()
                invariant
                    j <= a@.len(),
                    va == views_of(a@),
                    va.len() == a@.len(),
                    i < a@.len(),
                    gicao == va[i as int].icao,
                    gterm == va[i as int].terminal,
                    group_caps(va, gicao, gterm, i as int, 0) == caps.deep_view() + group_caps(
                        va,
                        gicao,
                        gterm,
                        i as int,
                        j as int,
                    ),
                decreases a@.len() - j,
            {
                proof {
                    assert(va[j as int] == view_of(a@[j as int]));
                }
                if j != i {
                    let group_match = str_eq(a[j].icao.as_str(), a[i].icao.as_str()) && str_eq(
                        a[j].terminal.as_str(),
                        a[i].terminal.as_str(),
                    );
                    if group_match {
                        match &a[j].transition {
                            Option::Some(t) => {
                                proof {
                                    reveal_strlit("RW");
                                }
                                if t.as_str().unicode_len() >= 3 && crate::text::starts_with_str(
                                    t.as_str(),
                                    "RW",
                                ) {
                                    let c = t.as_str().substring_char(
                                        2,
                                        t.as_str().unicode_len(),
                                    ).to_owned();
                                    proof {
                                        assert(c@ =~= t@.skip(2));
                                        assert(rw_capture(t@) == Option::Some(c@));
                                    }
                                    let ghost pre = caps.deep_view();
                                    caps.push(c);
                                    proof {
                                        assert(caps.deep_view() =~= pre.push(
                                            rw_capture(t@).unwrap(),
                                        ));
                                        assert(seq![rw_capture(t@).unwrap()]
                                            + group_caps(va, gicao, gterm, i as int, j as int + 1)
                                            =~= group_caps(va, gicao, gterm, i as int, j as int));
                                    }
                                } else {
                                    proof {
                                        assert(rw_capture(t@) is None);
                                    }
                                }
                            },
                            Option::None => {},
                        }
                    }
                }
                j += 1;
            }
            proof {
                assert(group_caps(va, gicao, gterm, i as int, j as int) =~= Seq::<
                    Seq<char>,
                >::empty());
                assert(group_caps(va, gicao, gterm, i as int, 0) =~= caps.deep_view());
            }
        }
        let does_expand = is_all && caps.len() > 0;
        proof {
            if is_all {
                assert(does_expand == expands(va, i as int));
            } else {
                assert(!expands(va, i as int));
            }
        }
        if does_expand {
            // one clone per captured runway
            let ghost gcaps = caps.deep_view();
            let ghost base = views_of(news@);
            let mut k: usize = 0;
            while k < caps.len()
                invariant
                    k <= caps@.len(),
                    i < a@.len(),
                    va == views_of(a@),
                    va.len() == a@.len(),
                    gcaps == caps.deep_view(),
                    gcaps.len() == caps@.len(),
                    views_of(news@) == base + clones_of(va[i as int], gcaps).take(k as int),
                decreases caps@.len() - k,
            {
                let mut nr = a[i].duplicate();
                nr.rwy = Option::Some(caps[k].clone());
                nr.type_field = Option::Some("5".to_owned());
                let ghost pre = views_of(news@);
                news.push(nr);
                proof {
                    assert(va[i as int] == view_of(a@[i as int]));
                    assert(views_of(news@) =~= pre.push(view_of(news@.last())));
                    assert(clones_of(va[i as int], gcaps)[k as int] == view_of(news@.last()));
                    assert(base + clones_of(va[i as int], gcaps).take(k as int + 1) =~= pre.push(
                        clones_of(va[i as int], gcaps)[k as int],
                    ));
                }
                k += 1;
            }
            proof {
                assert(clones_of(va[i as int], gcaps).take(k as int) =~= clones_of(
                    va[i as int],
                    gcaps,
                ));
                assert(stage10_news(va, i as int) =~= clones_of(va[i as int], gcaps)
                    + stage10_news(va, i as int + 1));
                assert(stage10_kept(va, i as int) =~= stage10_kept(va, i as int + 1));
            }
        } else {
            let nr = a[i].duplicate();
            let ghost pre = views_of(kept@);
            kept.push(nr);
            proof {
                assert(va[i as int] == view_of(a@[i as int]));
                assert(views_of(kept@) =~= pre.push(va[i as int]));
                assert(stage10_kept(va, i as int) =~= seq![va[i as int]] + stage10_kept(
                    va,
                    i as int + 1,
                ));
                assert(stage10_news(va, i as int) =~= stage10_news(va, i as int + 1));
            }
        }
        i += 1;
    }
    proof {
        assert(stage10_kept(va, i as int) =~= Seq::<MergedView>::empty());
        assert(stage10_news(va, i as int) =~= Seq::<MergedView>::empty());
    }
    let mut expanded = kept;
    let ghost keptv = views_of(expanded@);
    let mut n: usize = 0;
    while n < news.len()
        invariant
            n <= news@.len(),
            views_of(expanded@) == keptv + views_of(news@).take(n as int),
            views_of(news@).len() == news@.len(),
        decreases news@.len() - n,
    {
        let nr = news[n].duplicate();
        let ghost pre = views_of(expanded@);
        expanded.push(nr);
        proof {
            assert(views_of(news@)[n as int] == view_of(news@[n as int]));
            assert(views_of(expanded@) =~= pre.push(views_of(news@)[n as int]));
            assert(keptv + views_of(news@).take(n as int + 1) =~= pre.push(
                views_of(news@)[n as int],
            ));
        }
        n += 1;
    }
    proof {
        assert(views_of(news@).take(n as int) =~= views_of(news@));
        assert(views_of(expanded@) =~= stage10_views(va));
    }
    // IF-leg name fill
    let ghost vb = views_of(expanded@);
    let mut c: Vec<MergedDataRow> = Vec::new();
    let mut i: usize = 0;
    while i < expanded.len()
        invariant
            i <= expanded@.len(),
            vb == views_of(expanded@),
            vb.len() == expanded@.len(),
            c@.len() == i,
            forall|j: int| 0 <= j < i ==> views_of(c@)[j] == stage11_view(#[trigger] vb[j]),
        decreases expanded@.len() - i,
    {
        let nr = stage11_one(&expanded[i]);
        let ghost pre = c@;
        c.push(nr);
        proof {
            assert(vb[i as int] == view_of(expanded@[i as int]));
            assert(views_of(c@) =~= views_of(pre).push(view_of(c@[i as int])));
            assert(forall|j: int| 0 <= j < i ==> views_of(c@)[j] == views_of(pre)[j]);
        }
        i += 1;
    }
    let ghost vc = views_of(c@);
    proof {
        assert(vc =~= stage10_views(va).map_values(|v: MergedView| stage11_view(v)));
    }
    // stable sort by (icao, terminal, rwy)
    let mut out: Vec<MergedDataRow> = Vec::new();
    let mut k: usize = 0;
    proof {
        assert(views_of(out@) =~= Seq::<MergedView>::empty());
    }
    while k < c.len()
        invariant
            k <= c@.len(),
            vc == views_of(c@),
            vc.len() == c@.len(),
            views_of(out@) == sort_rows(vc.take(k as int)),
        decreases c@.len() - k,
    {
        let x = c[k].duplicate();
        proof {
            assert(vc.take(k as int + 1).drop_last() =~= vc.take(k as int));
            assert(vc[k as int] == view_of(c@[k as int]));
            assert(vc.take(k as int + 1).last() == view_of(x));
        }
        insert_row_exec(&mut out, x);
        k += 1;
    }
    proof {
        assert(vc.take(k as int) =~= vc);
    }
    out
}


/// Missed-approach altitude bound: a reconstructed altitude is the kernel's
/// value rounded to the nearest foot and lies in the accepted band (at least
/// the runway elevation plus fifty feet, at most sixteen thousand), or it is
/// the rounded runway elevation plus fifty.
pub proof fn lemma_map_altitude_bound(c: int, e: int)
    ensures
        ({
            let a = spec_recon_alt(c, e);
            ||| (e + 50000 <= c < 16000000 && a == spec_round_milli(c) && c - 500 <= 1000 * a <= c
                + 500 && a <= 16000 && 1000 * a >= e + 49500)
            ||| a == spec_round_milli(e) + 50
        }),
{
    if e + 50000 <= c && c < 16000000 {
        lemma_round_milli_bounds(c);
        let a = spec_round_milli(c);
        assert(1000 * a <= c + 500);
        assert(1000 * a >= c - 500);
        assert(1000 * a < 16000500);
        assert(a <= 16000) by {
            if a >= 16001 {
                assert(1000 * a >= 16001000) by (nonlinear_arith)
                    requires
                        a >= 16001,
                ;
            }
        }
    }
}

/// The rounding lies within half a unit of the value.
proof fn lemma_round_milli_bounds(m: int)
    ensures
        m - 500 <= 1000 * spec_round_milli(m) <= m + 500,
{
    if m >= 0 {
        let q = (m + 500) / 1000;
        vstd::arithmetic::div_mod::lemma_fundamental_div_mod(m + 500, 1000);
        vstd::arithmetic::div_mod::lemma_mod_bound(m + 500, 1000);
        assert(m + 500 == 1000 * q + (m + 500) % 1000);
    } else {
        let u = -m;
        let q = (u + 500) / 1000;
        vstd::arithmetic::div_mod::lemma_fundamental_div_mod(u + 500, 1000);
        vstd::arithmetic::div_mod::lemma_mod_bound(u + 500, 1000);
        assert(u + 500 == 1000 * q + (u + 500) % 1000);
        assert(1000 * spec_round_milli(m) == -(1000 * q)) by (nonlinear_arith)
            requires
                spec_round_milli(m) == -q,
        ;
    }
}

proof fn lemma_kept_members(s: Seq<MergedView>, j0: int)
    requires
        0 <= j0 <= s.len(),
    ensures
        forall|k: int|
            0 <= k < stage10_kept(s, j0).len() ==> exists|m: int|
                j0 <= m < s.len() && s[m] == #[trigger] stage10_kept(s, j0)[k] && !expands(s, m),
    decreases s.len() - j0,
{
    if j0 < s.len() {
        lemma_kept_members(s, j0 + 1);
        let head: Seq<MergedView> = if !expands(s, j0) {
            seq![s[j0]]
        } else {
            Seq::empty()
        };
        assert forall|k: int| 0 <= k < stage10_kept(s, j0).len() implies exists|m: int|
            j0 <= m < s.len() && s[m] == #[trigger] stage10_kept(s, j0)[k] && !expands(s, m) by {
            if k < head.len() {
                assert(stage10_kept(s, j0)[k] == s[j0]);
            } else {
                assert(stage10_kept(s, j0)[k] == stage10_kept(s, j0 + 1)[k - head.len()]);
                let m = choose|m: int|
                    j0 + 1 <= m < s.len() && s[m] == stage10_kept(s, j0 + 1)[k - head.len()]
                        && !expands(s, m);
                assert(s[m] == stage10_kept(s, j0)[k]);
            }
        }
    }
}

proof fn lemma_news_have_runways(s: Seq<MergedView>, j0: int)
    requires
        0 <= j0 <= s.len(),
    ensures
        forall|k: int|
            0 <= k < stage10_news(s, j0).len() ==> (#[trigger] stage10_news(s, j0)[k]).rwy
                is Some,
    decreases s.len() - j0,
{
    if j0 < s.len() {
        lemma_news_have_runways(s, j0 + 1);
        let head: Seq<MergedView> = if expands(s, j0) {
            clones_of(s[j0], group_caps(s, s[j0].icao, s[j0].terminal, j0, 0))
        } else {
            Seq::empty()
        };
        assert forall|k: int| 0 <= k < stage10_news(s, j0).len() implies (
        #[trigger] stage10_news(s, j0)[k]).rwy is Some by {
            if k < head.len() {
                assert(stage10_news(s, j0)[k] == head[k]);
            } else {
                assert(stage10_news(s, j0)[k] == stage10_news(s, j0 + 1)[k - head.len()]);
            }
        }
    }
}

proof fn lemma_news_contain_clones(s: Seq<MergedView>, j0: int)
    requires
        0 <= j0 <= s.len(),
    ensures
        forall|j: int, c: int|
            j0 <= j < s.len() && expands(s, j) && 0 <= c < group_caps(
                s,
                s[j].icao,
                s[j].terminal,
                j,
                0,
            ).len() ==> stage10_news(s, j0).contains(
                MergedView {
                    rwy: Option::Some(
                        #[trigger] group_caps(s, s[j].icao, s[j].terminal, j, 0)[c],
                    ),
                    type_field: Option::Some("5"@),
                    ..s[j]
                },
            ),
    decreases s.len() - j0,
{
    if j0 < s.len() {
        lemma_news_contain_clones(s, j0 + 1);
        let head: Seq<MergedView> = if expands(s, j0) {
            clones_of(s[j0], group_caps(s, s[j0].icao, s[j0].terminal, j0, 0))
        } else {
            Seq::empty()
        };
        assert forall|j: int, c: int|
            j0 <= j < s.len() && expands(s, j) && 0 <= c < group_caps(
                s,
                s[j].icao,
                s[j].terminal,
                j,
                0,
            ).len() implies stage10_news(s, j0).contains(
            MergedView {
                rwy: Option::Some(#[trigger] group_caps(s, s[j].icao, s[j].terminal, j, 0)[c]),
                type_field: Option::Some("5"@),
                ..s[j]
            },
        ) by {
            let clone = MergedView {
                rwy: Option::Some(group_caps(s, s[j].icao, s[j].terminal, j, 0)[c]),
                type_field: Option::Some("5"@),
                ..s[j]
            };
            if j == j0 {
                assert(head[c] == clone);
                assert(stage10_news(s, j0)[c] == clone);
            } else {
                assert(stage10_news(s, j0 + 1).contains(clone));
                let k = choose|k: int|
                    0 <= k < stage10_news(s, j0 + 1).len() && #[trigger] stage10_news(
                        s,
                        j0 + 1,
                    )[k] == clone;
                assert(stage10_news(s, j0)[head.len() + k] == clone);
            }
        }
    }
}

/// Wildcard expansion, stated on its own: in the expanded stream, every
/// record that is still a runway-less "ALL" record is an unexpanded input
/// record (its group named no runway), and for every runway a wildcard
/// record's group names, the stream holds the clone carrying that runway and
/// procedure type "5".
pub proof fn lemma_wildcard_expansion(s: Seq<MergedView>)
    ensures
        forall|k: int|
            0 <= k < stage10_views(s).len() && row_is_all(#[trigger] stage10_views(s)[k])
                ==> exists|j: int|
                0 <= j < s.len() && s[j] == stage10_views(s)[k] && !expands(s, j),
        forall|j: int, c: int|
            0 <= j < s.len() && expands(s, j) && 0 <= c < group_caps(
                s,
                s[j].icao,
                s[j].terminal,
                j,
                0,
            ).len() ==> stage10_views(s).contains(
                MergedView {
                    rwy: Option::Some(
                        #[trigger] group_caps(s, s[j].icao, s[j].terminal, j, 0)[c],
                    ),
                    type_field: Option::Some("5"@),
                    ..s[j]
                },
            ),
{
    lemma_kept_members(s, 0);
    lemma_news_have_runways(s, 0);
    lemma_news_contain_clones(s, 0);
    let kept = stage10_kept(s, 0);
    let news = stage10_news(s, 0);
    assert forall|k: int|
        0 <= k < stage10_views(s).len() && row_is_all(#[trigger] stage10_views(s)[k]) implies
        exists|j: int| 0 <= j < s.len() && s[j] == stage10_views(s)[k] && !expands(s, j) by {
        if k < kept.len() {
            assert(stage10_views(s)[k] == kept[k]);
        } else {
            assert(stage10_views(s)[k] == news[k - kept.len()]);
            assert(news[k - kept.len()].rwy is Some);
        }
    }
    assert forall|j: int, c: int|
        0 <= j < s.len() && expands(s, j) && 0 <= c < group_caps(
            s,
            s[j].icao,
            s[j].terminal,
            j,
            0,
        ).len() implies stage10_views(s).contains(
        MergedView {
            rwy: Option::Some(#[trigger] group_caps(s, s[j].icao, s[j].terminal, j, 0)[c]),
            type_field: Option::Some("5"@),
            ..s[j]
        },
    ) by {
        let clone = MergedView {
            rwy: Option::Some(group_caps(s, s[j].icao, s[j].terminal, j, 0)[c]),
            type_field: Option::Some("5"@),
            ..s[j]
        };
        assert(news.contains(clone));
        let k = choose|k: int| 0 <= k < news.len() && #[trigger] news[k] == clone;
        assert(stage10_views(s)[kept.len() + k] == clone);
    }
}

} // verus!
