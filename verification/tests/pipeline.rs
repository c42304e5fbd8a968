use geographiclib_rs::{Geodesic, InverseGeodesic};
use ruterminals::merge::{
    finalize_merged_data, generate_merged_data, stage7_apply, stage7_step, Relations,
};
use ruterminals::prep::{filter_records, generate_transitions, prepare_terminal_records, unique_icaos};
use ruterminals::records::{
    Airport, MergedDataRow, Navaid, Runway, Terminal, TerminalLeg, TerminalLegEx, TerminalRecord,
    Waypoint,
};

fn plain_row(icao: &str, terminal: &str) -> MergedDataRow {
    MergedDataRow {
        terminal_id: 1,
        icao: icao.to_string(),
        rwy: None,
        terminal: terminal.to_string(),
        type_field: None,
        transition: None,
        leg: None,
        turn_direction: None,
        name: None,
        latitude: None,
        longitude: None,
        frequency: None,
        nav_bear: None,
        nav_dist: None,
        heading: None,
        dist: None,
        cross_this_point: None,
        altitude: None,
        map: None,
        slope: None,
        speed: None,
        center_lat: None,
        center_lon: None,
        wpt_id: None,
        nav_id: None,
        center_id: None,
    }
}

fn plain_leg(id: i32, terminal_id: i32) -> TerminalLeg {
    TerminalLeg {
        id,
        terminal_id,
        type_field: None,
        transition: None,
        track_code: None,
        wpt_id: None,
        wpt_lat: None,
        wpt_lon: None,
        turn_dir: None,
        nav_id: None,
        nav_bear: None,
        nav_dist: None,
        course: None,
        distance: None,
        alt: None,
        vnav: None,
        center_id: None,
    }
}

#[test]
fn merge_joins_the_tables() {
    let mut leg = plain_leg(100, 10);
    leg.type_field = Some("2".to_string());
    leg.track_code = Some("IF".to_string());
    leg.wpt_id = Some(7);
    leg.nav_id = Some(9);
    leg.alt = Some("2000".to_string());
    let rel = Relations {
        airports: vec![Airport { id: 1, icao: "ZBAA".to_string() }],
        runways: vec![],
        terminals: vec![Terminal {
            id: 10,
            airport_id: 1,
            proc: Some("2".to_string()),
            icao: "OLD".to_string(),
            name: "PIK01".to_string(),
            rwy: Some("36R".to_string()),
        }],
        legs: vec![leg],
        legs_ex: vec![TerminalLegEx {
            id: 100,
            is_fly_over: Some(true),
            speed_limit: Some(250),
            speed_limit_description: Some("K".to_string()),
        }],
        waypoints: vec![Waypoint { id: 7, ident: "ABCDE".to_string(), latitude: 400000000, longitude: 1166000000 }],
        navaids: vec![Navaid { id: 9, ident: "VOR1".to_string(), latitude: 0, longitude: 0 }],
    };
    let rows = generate_merged_data(&rel);
    assert_eq!(rows.len(), 1);
    let r = &rows[0];
    assert_eq!(r.icao, "ZBAA");
    assert_eq!(r.terminal, "PIK01");
    assert_eq!(r.rwy.as_deref(), Some("36R"));
    assert_eq!(r.name.as_deref(), Some("ABCDE"));
    assert_eq!(r.latitude, Some(400000000));
    assert_eq!(r.frequency.as_deref(), Some("VOR1"));
    assert_eq!(r.speed.as_deref(), Some("250K"));
    assert_eq!(r.cross_this_point.as_deref(), Some("1"));
    assert_eq!(r.altitude.as_deref(), Some("2000"));
    assert_eq!(r.leg.as_deref(), Some("IF"));
}

#[test]
fn fly_over_false_clears_cross_point() {
    let leg = plain_leg(100, 10);
    let rel = Relations {
        airports: vec![],
        runways: vec![],
        terminals: vec![],
        legs: vec![leg],
        legs_ex: vec![TerminalLegEx {
            id: 100,
            is_fly_over: Some(false),
            speed_limit: None,
            speed_limit_description: None,
        }],
        waypoints: vec![],
        navaids: vec![],
    };
    let rows = generate_merged_data(&rel);
    assert_eq!(rows[0].cross_this_point, None);
}

#[test]
fn all_transition_expands_over_group_runways() {
    let mut a = plain_row("ZBAA", "PIK01");
    a.transition = Some("RW18".to_string());
    let mut b = plain_row("ZBAA", "PIK01");
    b.transition = Some("RW36".to_string());
    let mut c = plain_row("ZBAA", "PIK01");
    c.transition = Some("ALL".to_string());
    let out = finalize_merged_data(vec![a, b, c]);
    assert_eq!(out.len(), 4);
    assert!(out.iter().all(|r| r.transition.as_deref() != Some("ALL") || r.rwy.is_some()));
    let from_all: Vec<&MergedDataRow> =
        out.iter().filter(|r| r.transition.as_deref() == Some("ALL")).collect();
    assert_eq!(from_all.len(), 2);
    let mut rwys: Vec<&str> = from_all.iter().map(|r| r.rwy.as_deref().unwrap()).collect();
    rwys.sort();
    assert_eq!(rwys, vec!["18", "36"]);
    assert!(from_all.iter().all(|r| r.type_field.as_deref() == Some("5")));
}

#[test]
fn transition_named_runway_fills_rwy() {
    let mut a = plain_row("ZBAA", "PIK01");
    a.transition = Some("RW06".to_string());
    let out = finalize_merged_data(vec![a]);
    assert_eq!(out[0].rwy.as_deref(), Some("06"));
    assert_eq!(out[0].type_field.as_deref(), Some("5"));
}

#[test]
fn fixed_names_are_replaced() {
    let mut a = plain_row("ZBAA", "PIK01");
    a.name = Some("ZJ400".to_string());
    let out = finalize_merged_data(vec![a]);
    assert_eq!(out[0].name.as_deref(), Some("RW15"));
}

#[test]
fn if_legs_take_runway_names() {
    let mut a = plain_row("ZBAA", "PIK01");
    a.rwy = Some("6".to_string());
    a.leg = Some("IF".to_string());
    let mut b = plain_row("ZBAA", "PIK01");
    b.rwy = Some("36R".to_string());
    b.leg = Some("IF".to_string());
    let out = finalize_merged_data(vec![a, b]);
    // runway keys sort as text: "36R" comes before "6"
    assert_eq!(out[0].name.as_deref(), Some("RW36R"));
    assert_eq!(out[1].name.as_deref(), Some("RW06"));
}

#[test]
fn stream_is_sorted_by_icao_terminal_rwy() {
    let mut a = plain_row("ZSPD", "B");
    a.rwy = Some("18".to_string());
    let mut b = plain_row("ZBAA", "B");
    b.rwy = Some("18".to_string());
    let mut c = plain_row("ZBAA", "A");
    c.rwy = Some("36".to_string());
    let mut d = plain_row("ZBAA", "A");
    d.rwy = None;
    let out = finalize_merged_data(vec![a, b, c, d]);
    let keys: Vec<(String, String, Option<String>)> =
        out.iter().map(|r| (r.icao.clone(), r.terminal.clone(), r.rwy.clone())).collect();
    assert_eq!(keys, vec![
        ("ZBAA".to_string(), "A".to_string(), None),
        ("ZBAA".to_string(), "A".to_string(), Some("36".to_string())),
        ("ZBAA".to_string(), "B".to_string(), Some("18".to_string())),
        ("ZSPD".to_string(), "B".to_string(), Some("18".to_string())),
    ]);
}

fn map_setup() -> (Vec<MergedDataRow>, Vec<Terminal>, Vec<Runway>, Vec<Waypoint>) {
    let mut prev = plain_row("ZBAA", "R-15X");
    prev.altitude = Some("2000".to_string());
    prev.latitude = Some(400000000);
    prev.longitude = Some(1160000000);
    let mut map = plain_row("ZBAA", "R-15X");
    map.altitude = Some("MAP".to_string());
    map.slope = Some("3".to_string());
    map.rwy = Some("15".to_string());
    let terminals = vec![Terminal {
        id: 10,
        airport_id: 1,
        proc: Some("3".to_string()),
        icao: "ZBAA".to_string(),
        name: "R-15X".to_string(),
        rwy: Some("15".to_string()),
    }];
    let runways = vec![Runway {
        id: 5,
        airport_id: 1,
        ident: "15".to_string(),
        true_heading: None,
        latitude: 400274500,
        longitude: 1160000000,
        elevation_milli: 100000,
    }];
    (vec![prev, map], terminals, runways, Vec::new())
}

#[test]
fn map_record_takes_runway_position_and_name() {
    let (mut rows, terminals, runways, waypoints) = map_setup();
    let req = stage7_step(&mut rows, 1, &terminals, &runways, &waypoints);
    assert_eq!(rows[1].map, Some(1));
    assert_eq!(rows[1].latitude, Some(400274500));
    assert_eq!(rows[1].name.as_deref(), Some("RW15"));
    let req = req.expect("a reconstruction request");
    assert_eq!(req.index, 1);
    assert_eq!(req.prev_alt, "2000");
    assert_eq!(req.prev_lat, 400000000);
    assert_eq!(req.cur_lat, 400274500);
    assert_eq!(req.slope, "3");
    assert_eq!(req.elev_milli, 100000);
}

#[test]
fn map_altitude_reconstructs_from_slope() {
    let (mut rows, terminals, runways, waypoints) = map_setup();
    let req = stage7_step(&mut rows, 1, &terminals, &runways, &waypoints).unwrap();
    // the kernel computation the caller performs
    let geod = Geodesic::wgs84();
    let s12: f64 = geod.inverse(
        req.prev_lat as f64 / 1e7,
        req.prev_lon as f64 / 1e7,
        req.cur_lat as f64 / 1e7,
        req.cur_lon as f64 / 1e7,
    );
    let prev: f64 = req.prev_alt.parse().unwrap();
    let slope: f64 = req.slope.parse().unwrap();
    let calc = prev - s12 * 3.280839895 * slope.to_radians().tan();
    let calc_milli = (calc * 1000.0).round() as i64;
    stage7_apply(&mut rows, &req, Some(calc_milli));
    // the two points are ~3048 m apart: 2000 - 10000 ft * tan(3 deg) = 1476
    assert_eq!(rows[1].altitude.as_deref(), Some("1476"));
}

#[test]
fn map_altitude_clamps_to_elevation() {
    let (mut rows, terminals, runways, waypoints) = map_setup();
    let req = stage7_step(&mut rows, 1, &terminals, &runways, &waypoints).unwrap();
    // a value below elevation + 50 ft clamps to round(elevation) + 50
    stage7_apply(&mut rows, &req, Some(120000));
    assert_eq!(rows[1].altitude.as_deref(), Some("150"));
}

#[test]
fn map_altitude_rejects_out_of_band_high() {
    let (mut rows, terminals, runways, waypoints) = map_setup();
    let req = stage7_step(&mut rows, 1, &terminals, &runways, &waypoints).unwrap();
    stage7_apply(&mut rows, &req, Some(16_000_000));
    assert_eq!(rows[1].altitude.as_deref(), Some("150"));
}

#[test]
fn map_near_waypoint_takes_its_name() {
    let (mut rows, terminals, runways, _) = map_setup();
    rows[1].latitude = Some(400274500);
    rows[1].longitude = Some(1160000000);
    let waypoints = vec![Waypoint {
        id: 77,
        ident: "MAPFX".to_string(),
        latitude: 400274495,
        longitude: 1160000005,
    }];
    stage7_step(&mut rows, 1, &terminals, &runways, &waypoints);
    assert_eq!(rows[1].name.as_deref(), Some("MAPFX"));
    // coordinates stay the record's own
    assert_eq!(rows[1].latitude, Some(400274500));
}

#[test]
fn non_map_records_are_untouched() {
    let (mut rows, terminals, runways, waypoints) = map_setup();
    let req = stage7_step(&mut rows, 0, &terminals, &runways, &waypoints);
    assert!(req.is_none());
    assert_eq!(rows[0].map, None);
    assert_eq!(rows[0].altitude.as_deref(), Some("2000"));
}

#[test]
fn transitions_come_from_type_six_and_a() {
    let mut a = plain_row("ZBAA", "PIK01");
    a.type_field = Some("6".to_string());
    a.transition = Some("EPGAM".to_string());
    a.rwy = Some("18".to_string());
    let mut b = plain_row("ZBAA", "PIK01");
    b.type_field = Some("A".to_string());
    b.transition = Some("OKTAM".to_string());
    let mut c = plain_row("ZBAA", "PIK01");
    c.type_field = Some("2".to_string());
    let ts = generate_transitions(&vec![a, b, c]);
    assert_eq!(ts.len(), 2);
    assert_eq!(ts[0].proc, "6");
    assert_eq!(ts[0].name, "EPGAM");
    assert_eq!(ts[0].rwy.as_deref(), Some("18"));
    assert_eq!(ts[1].proc, "A");
    assert_eq!(ts[1].name, "OKTAM");
}

fn trec(proc_code: &str, icao: &str, name: &str, rwy: Option<&str>) -> TerminalRecord {
    TerminalRecord {
        proc: proc_code.to_string(),
        icao: icao.to_string(),
        name: name.to_string(),
        rwy: rwy.map(|s| s.to_string()),
    }
}

#[test]
fn roster_drops_icaos_with_digits() {
    let db = vec![trec("2", "ZB1A", "X", Some("18")), trec("2", "ZBAA", "Y", Some("18"))];
    let out = prepare_terminal_records(db, &Vec::new());
    assert_eq!(out.len(), 1);
    assert_eq!(out[0].icao, "ZBAA");
}

#[test]
fn roster_expands_missing_runways_over_the_group() {
    let mut m1 = plain_row("ZBAA", "PIK01");
    m1.rwy = Some("36".to_string());
    let mut m2 = plain_row("ZBAA", "PIK01");
    m2.rwy = Some("18".to_string());
    let mut m3 = plain_row("ZBAA", "PIK01");
    m3.rwy = Some("36".to_string());
    let db = vec![trec("2", "ZBAA", "PIK01", None)];
    let out = prepare_terminal_records(db, &vec![m1, m2, m3]);
    // distinct runways, sorted
    assert_eq!(out.len(), 2);
    assert_eq!(out[0].rwy.as_deref(), Some("18"));
    assert_eq!(out[1].rwy.as_deref(), Some("36"));
}

#[test]
fn roster_keeps_unmatched_records() {
    let db = vec![trec("2", "ZBAA", "PIK01", None)];
    let out = prepare_terminal_records(db, &Vec::new());
    assert_eq!(out.len(), 1);
    assert_eq!(out[0].rwy, None);
}

#[test]
fn icaos_deduplicate_in_order() {
    let ts = vec![
        trec("2", "ZBAA", "A", None),
        trec("1", "ZSPD", "B", None),
        trec("3", "ZBAA", "C", None),
    ];
    let icaos = unique_icaos(&ts);
    assert_eq!(icaos, vec!["ZBAA".to_string(), "ZSPD".to_string()]);
}

#[test]
fn records_filter_by_icao_and_code() {
    let ts = vec![
        trec("2", "ZBAA", "A", None),
        trec("1", "ZBAA", "B", None),
        trec("2", "ZSPD", "C", None),
        trec("2", "ZBAA", "D", None),
    ];
    let picked = filter_records(&ts, "ZBAA", "2");
    assert_eq!(picked.len(), 2);
    assert_eq!(picked[0].name, "A");
    assert_eq!(picked[1].name, "D");
}
