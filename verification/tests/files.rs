use ruterminals::listing::{list_file_content, parse_and_sort_procedures, parse_proc_line, proc_filename, zfill};
use ruterminals::legs::{legs_generate, process_file_content, rows_from_merged};
use ruterminals::mirror::{mirror_eligible, should_copy};
use ruterminals::parsing::{parse_detail_line, parse_files};
use ruterminals::records::{MergedDataRow, Row, TerminalRecord};
use ruterminals::revision::{ident_content, revision_code};
use ruterminals::numbers::{i64_to_string, parse_u32, u64_to_string};

fn rec(proc_code: &str, icao: &str, name: &str, rwy: Option<&str>) -> TerminalRecord {
    TerminalRecord {
        proc: proc_code.to_string(),
        icao: icao.to_string(),
        name: name.to_string(),
        rwy: rwy.map(|s| s.to_string()),
    }
}

#[test]
fn zfill_pads_short_runways() {
    assert_eq!(zfill("6", 2), "06");
    assert_eq!(zfill("", 2), "00");
    assert_eq!(zfill("36", 2), "36");
}

#[test]
fn zfill_leaves_wide_runways() {
    assert_eq!(zfill("36R", 2), "36R");
    assert_eq!(zfill("123", 2), "123");
}

#[test]
fn proc_line_parses() {
    assert_eq!(parse_proc_line("Procedure.5=PIK01.36"), Some(("PIK01.36".to_string(), 5)));
    assert_eq!(parse_proc_line("Procedure.12=A.B.36"), Some(("A.B.36".to_string(), 12)));
}

#[test]
fn proc_line_rejects_malformed() {
    assert_eq!(parse_proc_line("xProcedure.1=A.B"), None);
    assert_eq!(parse_proc_line("Procedure.=A.B"), None);
    assert_eq!(parse_proc_line("Procedure.1=AB"), None);
    assert_eq!(parse_proc_line("Procedure.1=.36"), None);
    assert_eq!(parse_proc_line("Procedure.4294967296=A.B"), None);
}

#[test]
fn parse_and_sort_orders_by_number() {
    let (entries, next) = parse_and_sort_procedures("Procedure.3=C.01\nProcedure.1=A.02\n");
    assert_eq!(entries.len(), 2);
    assert_eq!(entries[0], ("A.02".to_string(), 1));
    assert_eq!(entries[1], ("C.01".to_string(), 3));
    assert_eq!(next, 4);
}

#[test]
fn fresh_list_numbers_from_one() {
    let data = vec![
        rec("2", "ZBAA", "PIK01", Some("36R")),
        rec("2", "ZBAA", "XYZ02", Some("6")),
    ];
    let out = list_file_content("", &data);
    assert_eq!(out, "[list]\nProcedure.1=PIK01.36R\nProcedure.2=XYZ02.06");
    assert!(out.starts_with("[list]\nProcedure.1=PIK01.36"));
}

#[test]
fn existing_number_is_kept() {
    let data = vec![
        rec("2", "ZBAA", "PIK01", Some("36")),
        rec("2", "ZBAA", "NEW01", Some("18")),
    ];
    let out = list_file_content("[list]\nProcedure.5=PIK01.36", &data);
    assert_eq!(out, "[list]\nProcedure.5=PIK01.36\nProcedure.6=NEW01.18");
}

#[test]
fn list_tail_is_preserved_without_old_procedure_lines() {
    let existing = "header junk\n[list]\nProcedure.2=OLD.09\n[OLD.09.0]\nleg=IF\n";
    let data = vec![rec("2", "ZBAA", "OLD", Some("9"))];
    let out = list_file_content(existing, &data);
    assert_eq!(out, "[list]\nProcedure.2=OLD.09\n[OLD.09.0]\nleg=IF");
}

#[test]
fn record_without_runway_adds_nothing() {
    let data = vec![rec("2", "ZBAA", "PIK01", None)];
    let out = list_file_content("", &data);
    assert_eq!(out, "[list]");
}

#[test]
fn duplicate_keys_get_one_number() {
    let data = vec![
        rec("2", "ZBAA", "PIK01", Some("36")),
        rec("2", "ZBAA", "PIK01", Some("36")),
    ];
    let out = list_file_content("", &data);
    assert_eq!(out, "[list]\nProcedure.1=PIK01.36");
}

#[test]
fn filenames_follow_the_procedure_code() {
    assert_eq!(proc_filename("ZBAA", "2").as_deref(), Some("Supplemental/SID/ZBAA.sid"));
    assert_eq!(proc_filename("ZBAA", "1").as_deref(), Some("Supplemental/STAR/ZBAA.star"));
    assert_eq!(proc_filename("ZBAA", "3").as_deref(), Some("Supplemental/STAR/ZBAA.app"));
    assert_eq!(proc_filename("ZBAA", "6").as_deref(), Some("Supplemental/SID/ZBAA.sidtrs"));
    assert_eq!(proc_filename("ZBAA", "A").as_deref(), Some("Supplemental/STAR/ZBAA.apptrs"));
    assert_eq!(proc_filename("ZBAA", "9"), None);
}

#[test]
fn detail_line_splits_at_the_last_two_dots() {
    assert_eq!(parse_detail_line("[PIK01.36.0]"), Some("PIK01.36".to_string()));
    assert_eq!(parse_detail_line("[A.B.C.12]"), Some("A.B.C".to_string()));
    assert_eq!(parse_detail_line("[PIK01.36.x]"), None);
    assert_eq!(parse_detail_line("[PIK01.36]"), None);
    assert_eq!(parse_detail_line("[PIK 01.36.0]"), None);
    assert_eq!(parse_detail_line("PIK01.36.0"), None);
}

#[test]
fn parse_files_reads_list_window_and_details() {
    let content = "[list]\nProcedure.1=PIK01.36\nProcedure.2=ALT.18\n[PIK01.36.0]\nleg=IF\n[PIK01.36.1]\nleg=TF\n";
    let (procs, details) = parse_files("ZBAA.sid", content);
    assert_eq!(procs, vec!["ZBAA.PIK01.36".to_string(), "ZBAA.ALT.18".to_string()]);
    assert_eq!(details, vec!["PIK01.36".to_string()]);
}

#[test]
fn parse_files_stops_at_next_section() {
    let content = "[list]\nProcedure.1=A.36\n[A.36.0]\nProcedure.2=B.18\n";
    let (procs, _) = parse_files("ZBAA.sid", content);
    assert_eq!(procs, vec!["ZBAA.A.36".to_string()]);
}

#[test]
fn parse_files_skips_unread_extensions() {
    let content = "[list]\nProcedure.1=A.36\n";
    let (procs, details) = parse_files("ZBAA.startrs", content);
    assert!(procs.is_empty());
    assert!(details.is_empty());
}

fn row(icao: &str, ty: &str, transition: &str, terminal: &str, rwy: &str, extras: Vec<(&str, &str)>) -> Row {
    Row {
        icao: icao.to_string(),
        type_field: ty.to_string(),
        transition: transition.to_string(),
        terminal: terminal.to_string(),
        rwy: rwy.to_string(),
        extras: extras.into_iter().map(|(k, v)| (k.to_string(), v.to_string())).collect(),
    }
}

#[test]
fn legs_blocks_number_from_zero_per_pair() {
    let procs = vec!["ZBAA.PIK01.36".to_string()];
    let details: Vec<String> = Vec::new();
    let data = vec![
        row("ZBAA", "2", "X", "PIK01", "36", vec![("leg", "IF")]),
        row("ZBAA", "2", "X", "PIK01", "36", vec![("leg", "TF")]),
    ];
    let blocks = legs_generate("ZBAA", &procs, &details, &data);
    assert_eq!(blocks, vec![
        "[PIK01.36.0]\nleg=IF".to_string(),
        "[PIK01.36.1]\nleg=TF".to_string(),
    ]);
}

#[test]
fn unlisted_procedure_is_not_emitted() {
    let procs = vec!["ZBAA.OTHER.18".to_string()];
    let details: Vec<String> = Vec::new();
    let data = vec![row("ZBAA", "2", "X", "PIK01", "36", vec![("leg", "IF")])];
    let blocks = legs_generate("ZBAA", &procs, &details, &data);
    assert!(blocks.is_empty());
}

#[test]
fn present_detail_is_not_emitted_again() {
    let procs = vec!["ZBAA.PIK01.36".to_string()];
    let details = vec!["PIK01.36".to_string()];
    let data = vec![row("ZBAA", "2", "X", "PIK01", "36", vec![("leg", "IF")])];
    let blocks = legs_generate("ZBAA", &procs, &details, &data);
    assert!(blocks.is_empty());
}

#[test]
fn transition_rows_use_transition_and_terminal() {
    let procs = vec!["ZBAA.EPGAM.PIK01".to_string()];
    let details: Vec<String> = Vec::new();
    let data = vec![row("ZBAA", "6", "EPGAM", "PIK01", "00", vec![("leg", "IF")])];
    let blocks = legs_generate("ZBAA", &procs, &details, &data);
    assert_eq!(blocks, vec!["[EPGAM.PIK01.0]\nleg=IF".to_string()]);
}

#[test]
fn blank_extra_values_are_dropped() {
    let procs = vec!["ZBAA.PIK01.36".to_string()];
    let details: Vec<String> = Vec::new();
    let data = vec![row("ZBAA", "2", "X", "PIK01", "36", vec![("leg", "  "), ("turn_direction", "L")])];
    let blocks = legs_generate("ZBAA", &procs, &details, &data);
    assert_eq!(blocks, vec!["[PIK01.36.0]\nturn_direction=L".to_string()]);
}

#[test]
fn process_file_appends_blocks() {
    let content = "[list]\nProcedure.1=PIK01.36R";
    let data = vec![row("ZBAA", "2", "X", "PIK01", "36R", vec![("leg", "IF")])];
    let out = process_file_content("ZBAA.sid", content, &data);
    assert_eq!(out, "[list]\nProcedure.1=PIK01.36R\n[PIK01.36R.0]\nleg=IF\n");
}

#[test]
fn emitted_list_parses_back() {
    let data = vec![
        rec("2", "ZBAA", "PIK01", Some("36R")),
        rec("2", "ZBAA", "XYZ02", Some("6")),
    ];
    let out = list_file_content("", &data);
    let (procs, details) = parse_files("ZBAA.sid", &out);
    assert_eq!(procs, vec!["ZBAA.PIK01.36R".to_string(), "ZBAA.XYZ02.06".to_string()]);
    assert!(details.is_empty());
}

#[test]
fn emitted_blocks_parse_back_as_details() {
    let content = "[list]\nProcedure.1=PIK01.36";
    let data = vec![row("ZBAA", "2", "X", "PIK01", "36", vec![("leg", "IF")])];
    let out = process_file_content("ZBAA.sid", content, &data);
    let (_, details) = parse_files("ZBAA.sid", &out);
    assert_eq!(details, vec!["PIK01.36".to_string()]);
    // a second run sees the detail and emits nothing new
    let again = process_file_content("ZBAA.sid", &out, &data);
    assert_eq!(again, format!("{}\n", out));
}

#[test]
fn mirror_checks_prefix_and_extension() {
    assert!(mirror_eligible("ZBAA.sid"));
    assert!(mirror_eligible("VQPR.startrs"));
    assert!(mirror_eligible("ZYTL.apptrs"));
    assert!(!mirror_eligible("KJFK.sid"));
    assert!(!mirror_eligible("ZBAA.txt"));
}

#[test]
fn mirror_never_overwrites() {
    assert!(should_copy("ZBAA.sid", false));
    assert!(!should_copy("ZBAA.sid", true));
}

#[test]
fn revision_for_late_june() {
    assert_eq!(revision_code(2025, 6, 20), 2506);
}

#[test]
fn revision_boundaries() {
    assert_eq!(revision_code(2025, 6, 12), 2506);
    assert_eq!(revision_code(2025, 6, 11), 2505);
    assert_eq!(revision_code(2025, 1, 1), 2501);
    assert_eq!(revision_code(2024, 12, 31), 2501);
    assert_eq!(revision_code(2025, 12, 25), 2513);
    assert_eq!(revision_code(2026, 1, 1), 2513);
}

#[test]
fn ident_file_text() {
    assert_eq!(ident_content(2506), "[Ident]\nSuppData=NAIP-2506\n");
}

#[test]
fn numbers_render_and_parse() {
    assert_eq!(u64_to_string(0), "0");
    assert_eq!(u64_to_string(12345), "12345");
    assert_eq!(i64_to_string(-5), "-5");
    assert_eq!(i64_to_string(1476), "1476");
    assert_eq!(parse_u32("0042"), Some(42));
    assert_eq!(parse_u32(""), None);
    assert_eq!(parse_u32("4294967295"), Some(u32::MAX));
    assert_eq!(parse_u32("4294967296"), None);
    assert_eq!(parse_u32("12a"), None);
}

fn plain_merged(icao: &str, terminal: &str) -> MergedDataRow {
    MergedDataRow {
        terminal_id: 1,
        icao: icao.to_string(),
        rwy: None,
        terminal: terminal.to_string(),
        type_field: None,
        transition: None,
        leg: None,
        turn_direction: None,
        name: None,
        latitude: None,
        longitude: None,
        frequency: None,
        nav_bear: None,
        nav_dist: None,
        heading: None,
        dist: None,
        cross_this_point: None,
        altitude: None,
        map: None,
        slope: None,
        speed: None,
        center_lat: None,
        center_lon: None,
        wpt_id: None,
        nav_id: None,
        center_id: None,
    }
}

#[test]
fn rows_take_defaults_from_missing_columns() {
    let mut m = plain_merged("ZBAA", "PIK01");
    m.leg = Some("IF".to_string());
    let rows = rows_from_merged(&vec![m]);
    assert_eq!(rows.len(), 1);
    assert_eq!(rows[0].icao, "ZBAA");
    assert_eq!(rows[0].type_field, "");
    assert_eq!(rows[0].transition, "DEFAULT_TRANSITION");
    assert_eq!(rows[0].rwy, "00");
    assert_eq!(rows[0].extras, vec![("leg".to_string(), "IF".to_string())]);
}

#[test]
fn carriage_returns_are_stripped_from_lines() {
    let (entries, next) = parse_and_sort_procedures("Procedure.1=A.02\r\nProcedure.2=B.03\r\n");
    assert_eq!(entries, vec![("A.02".to_string(), 1), ("B.03".to_string(), 2)]);
    assert_eq!(next, 3);
}

#[test]
fn rows_carry_every_present_field() {
    let mut m = plain_merged("ZBAA", "PIK01");
    m.leg = Some("IF".to_string());
    m.name = Some("ABCDE".to_string());
    m.latitude = Some(400274500);
    m.longitude = Some(-1234);
    m.frequency = Some("VOR1".to_string());
    m.altitude = Some("1476".to_string());
    m.map = Some(1);
    m.speed = Some("250K".to_string());
    let rows = rows_from_merged(&vec![m]);
    let expect: Vec<(String, String)> = vec![
        ("leg", "IF"),
        ("name", "ABCDE"),
        ("latitude", "40.0274500"),
        ("longitude", "-0.0001234"),
        ("frequency", "VOR1"),
        ("altitude", "1476"),
        ("map", "1"),
        ("speed", "250K"),
    ]
    .into_iter()
    .map(|(k, v)| (k.to_string(), v.to_string()))
    .collect();
    assert_eq!(rows[0].extras, expect);
}

#[test]
fn emitted_block_carries_the_reconstruction() {
    let mut m = plain_merged("ZBAA", "PIK01");
    m.type_field = Some("2".to_string());
    m.rwy = Some("36".to_string());
    m.leg = Some("IF".to_string());
    m.altitude = Some("1476".to_string());
    m.map = Some(1);
    let rows = rows_from_merged(&vec![m]);
    let procs = vec!["ZBAA.PIK01.36".to_string()];
    let blocks = legs_generate("ZBAA", &procs, &Vec::new(), &rows);
    assert_eq!(blocks, vec!["[PIK01.36.0]\nleg=IF\naltitude=1476\nmap=1".to_string()]);
}
