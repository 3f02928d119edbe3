use atr_ingest::dates::{date_from_ymd, parse_voltech_date, parse_iso_date, format_iso, format_dmy, Date};
use atr_ingest::excel::{normalize_spaces, manual_map_all_pass, ManualGroup};
use atr_ingest::manual::{parse_date, parse_manual_csv};
use atr_ingest::measurements::{measurements_to_json, parse_measurements_json, MeasValue};
use atr_ingest::model::ManualResultRow;
use atr_ingest::parser::{combine_header, parse_csv_line, parse_file_to_rows, clean_date};
use atr_ingest::queries::query_serialized;
use atr_ingest::store::{LockRow, VoltechStore};
use atr_ingest::text::{str_to_chars, chars_to_string, parse_int_chars, is_float_chars};
use atr_ingest::validator::{
    report_is_complete, validate_manual_serialized, validate_voltech_serialized,
};
use atr_ingest::watcher::{is_voltech_file, validate_path};
use atr_ingest::api::UserResponse;
use atr_ingest::api::WatcherControl;
use atr_ingest::auth::{check_admin_permission, is_admin, parse_permissions};
use atr_ingest::collector::{collect_report_data, collect_voltech_test, Selection, TestSpec};
use atr_ingest::layout::{layout_collected, layout_serialized, CellVal, PartData};
use atr_ingest::queries::{get_all_part_numbers, query_manual_serialized};
use atr_ingest::validator::sessions_of;
use atr_ingest::validator::validate_report;
use atr_ingest::watcher::{watcher_step, LockSeen, WatcherAction, WatcherEvent, WatcherSt};


fn manual_row(test: &str, time: &str, passfail: &str, reading: &str) -> ManualResultRow {
    ManualResultRow {
        result: 0,
        test: test.to_string(),
        fg: "132520".to_string(),
        rev: "FTA".to_string(),
        batch: "B1".to_string(),
        operator: "op".to_string(),
        date: "2025-12-12".to_string(),
        time: time.to_string(),
        sn: "100".to_string(),
        passfail: passfail.to_string(),
        minimum: "0.0".to_string(),
        reading: reading.to_string(),
        maximum: "2.0".to_string(),
        uom: "Ohm".to_string(),
        file_path: "f".to_string(),
        normalized_date: date_from_ymd(2025, 12, 12).unwrap(),
        created_at: 0,
    }
}

#[test]
fn test_parse_date() {
    assert_eq!(parse_date("11/19/2025").unwrap(), date_from_ymd(2025, 11, 19).unwrap());
    assert_eq!(parse_date("1/5/2025").unwrap(), date_from_ymd(2025, 1, 5).unwrap());
    assert_eq!(parse_date("12/31/2024").unwrap(), date_from_ymd(2024, 12, 31).unwrap());
}

#[test]
fn test_parse_date_invalid() {
    assert!(parse_date("invalid").is_err());
    assert!(parse_date("13/1/2025").is_err());
    assert!(parse_date("1/32/2025").is_err());
}

#[test]
fn test_manual_map_all_pass() {
    let mut groups = vec![ManualGroup {
        suffix: "DCR1".to_string(),
        rows: vec![manual_row("132520-LFG-DCR1", "12:00", "PASS", "1.0")],
    }];
    assert!(manual_map_all_pass(&groups, &vec!["DCR1".to_string()]));
    assert!(!manual_map_all_pass(&groups, &vec!["DCR1".to_string(), "DCR2".to_string()]));

    groups.push(ManualGroup {
        suffix: "DCR2".to_string(),
        rows: vec![manual_row("132520-LFG-DCR2", "12:05", "Fail", "1.1")],
    });
    assert!(!manual_map_all_pass(&groups, &vec!["DCR1".to_string(), "DCR2".to_string()]));

    groups[1].rows.push(manual_row("132520-LFG-DCR2", "12:06", "pass", "1.2"));
    assert!(manual_map_all_pass(&groups, &vec!["DCR1".to_string(), "DCR2".to_string()]));
}

#[test]
fn test_normalize_spaces() {
    assert_eq!(normalize_spaces("002   LS Reading"), "002 LS Reading");
    assert_eq!(normalize_spaces("004   TR Polarity"), "004 TR Polarity");
    assert_eq!(normalize_spaces("  multiple   spaces  "), "multiple spaces");
    assert_eq!(normalize_spaces("no change"), "no change");
}

fn cells(v: &[&str]) -> Vec<Vec<char>> {
    v.iter().map(|s| str_to_chars(s)).collect()
}

#[test]
fn header_combining_expands_tokens_under_identifier() {
    let h1 = cells(&["Result #", "Serial #", "", "Pass/Fail", "002   LS", "", "", ""]);
    let h2 = cells(&["", "", "", "", "Reading", "Maximum", "Polarity", ""]);
    let out: Vec<String> = combine_header(&h1, &h2).iter().map(|c| chars_to_string(c)).collect();
    let expected = vec![
        "002 LSReading",
        "002 LSPass/Fail",
        "002 LSMaximum",
        "002 LSPolarity",
        "002 LSPolarity Pass/Fail",
    ];
    let mut pos = 0;
    for want in expected {
        let found = out[pos..].iter().position(|c| c == want);
        assert!(found.is_some(), "missing {} in {:?}", want, out);
        pos += found.unwrap() + 1;
    }
}

#[test]
fn header_combining_twice_is_identity() {
    let h1 = cells(&["Result #", "Serial #", "", "Pass/Fail", "002   LS", "", "", ""]);
    let h2 = cells(&["", "", "", "", "Reading", "Maximum", "Polarity", ""]);
    let once = combine_header(&h1, &h2);
    let twice = combine_header(&once, &Vec::new());
    let a: Vec<String> = once.iter().map(|c| chars_to_string(c)).collect();
    let b: Vec<String> = twice.iter().map(|c| chars_to_string(c)).collect();
    assert_eq!(a, b);
}

#[test]
fn measurements_json_round_trip() {
    let mut m: Vec<(String, MeasValue)> = Vec::new();
    m.push(("002 LSReading".to_string(), MeasValue::Num("1.5e-3".to_string())));
    m.push(("Result".to_string(), MeasValue::Int(7)));
    m.push(("Note \"odd\"".to_string(), MeasValue::Text("a,b}c".to_string())));
    let json = measurements_to_json(&m);
    let back = parse_measurements_json(&json).expect("reparse");
    assert_eq!(back.len(), m.len());
    for (i, (k, _)) in m.iter().enumerate() {
        assert_eq!(&back[i].0, k);
    }
    match &back[1].1 {
        MeasValue::Int(x) => assert_eq!(*x, 7),
        _ => panic!("wrong kind"),
    }
    match &back[0].1 {
        MeasValue::Num(s) => assert_eq!(s, "1.5e-3"),
        _ => panic!("wrong kind"),
    }
    match &back[2].1 {
        MeasValue::Text(s) => assert_eq!(s, "a,b}c"),
        _ => panic!("wrong kind"),
    }
}

#[test]
fn voltech_date_round_trip() {
    let raw = str_to_chars("19-11-25");
    let d = parse_voltech_date(&raw).expect("date");
    assert_eq!(d, Date { year: 2025, month: 11, day: 19 });
    let iso = chars_to_string(&format_iso(&d));
    assert_eq!(iso, "2025-11-19");
    let back = parse_iso_date(&str_to_chars(&iso)).expect("iso");
    assert_eq!(chars_to_string(&format_dmy(&back)), "19-11-25");
}

const ATR: &str = "\
Part #,132520FTA\n\
Operator,op1\n\
Batch #,B7\n\
Result #,Serial #,Pass/Fail,002   LS,,,,\n\
,,,Reading,Maximum,Polarity,,\n\
1,00005,Pass,1.5e-3,JUNK,Pass,10,OK,x\n\
2,00006,Pass,1.6e-3,JUNK,Pass,10,OK,x\n\
3,00007,Pass,1.7e-3,JUNK,Pass,10,OK,x\n";

#[test]
fn idempotent_rescan_inserts_once() {
    let rows = parse_file_to_rows(ATR, "C1191125.atr");
    assert_eq!(rows.len(), 3);
    let mut store = VoltechStore::new();
    let n1 = store.ingest_file("C1191125.atr", 100, 200, &rows, 10);
    assert_eq!(n1, 3);
    assert_eq!(store.results.len(), 3);
    assert_eq!(store.processed.len(), 1);
    let rows2 = parse_file_to_rows(ATR, "C1191125.atr");
    let n2 = store.ingest_file("C1191125.atr", 100, 200, &rows2, 20);
    assert_eq!(n2, 0);
    assert_eq!(store.results.len(), 3);
    assert_eq!(store.processed.len(), 1);
}

#[test]
fn stale_lock_takeover() {
    let mut store = VoltechStore::new();
    store.lock = Some(LockRow {
        holder_id: "ghost".to_string(),
        holder_name: "ghost".to_string(),
        acquired_at: 0,
        last_heartbeat: 700,
        is_active: true,
    });
    let now = 1000; // 300 s later
    assert!(store.check_stale_lock(now));
    let id = store.acquire_lock("alice", now).expect("takeover");
    let lock = store.lock.as_ref().unwrap();
    assert_eq!(lock.holder_id, id);
    assert_eq!(lock.holder_name, "alice");
    assert!(lock.is_active);
}

#[test]
fn fresh_lock_blocks_second_acquire() {
    let mut store = VoltechStore::new();
    let id1 = store.acquire_lock("bob", 1000).expect("first");
    assert!(store.acquire_lock("carol", 1060).is_none());
    let lock = store.lock.as_ref().unwrap();
    assert!(lock.is_active);
    assert_eq!(lock.holder_id, id1);
}

#[test]
fn force_release_lets_admin_take_over() {
    let mut store = VoltechStore::new();
    let _bob = store.acquire_lock("bob", 1000).expect("bob");
    store.force_release_lock();
    assert!(!store.lock.as_ref().unwrap().is_active);
    let _alice = store.acquire_lock("alice", 1010).expect("alice");
    let lock = store.lock.as_ref().unwrap();
    assert_eq!(lock.holder_name, "alice");
    assert!(lock.is_active);
}

#[test]
fn heartbeat_updates_only_own_active_claim() {
    let mut store = VoltechStore::new();
    let id = store.acquire_lock("bob", 1000).expect("bob");
    assert!(store.update_heartbeat(&id, 1030));
    assert_eq!(store.lock.as_ref().unwrap().last_heartbeat, 1030);
    assert!(!store.update_heartbeat("other", 1060));
    store.release_lock(&id);
    assert!(!store.update_heartbeat(&id, 1090));
}

fn seed_row(serial: &str, result_num: i32, file: &str) -> atr_ingest::model::TestResultRow {
    atr_ingest::model::TestResultRow {
        part: "132520FTA".to_string(),
        operator: "op".to_string(),
        batch: "B1".to_string(),
        date: "19-11-25".to_string(),
        serial_num: serial.to_string(),
        result_num,
        pass_fail: "Pass".to_string(),
        time: Some("10:00".to_string()),
        retries: Some("0".to_string()),
        file_path: file.to_string(),
        measurements: "{}".to_string(),
        normalized_date: None,
        created_at: 0,
    }
}

#[test]
fn serial_range_dedup_keeps_most_recent() {
    let mut store = VoltechStore::new();
    let t = 1000;
    store.insert_results(&vec![seed_row("00005", 1, "a")], t);
    store.insert_results(&vec![seed_row("00005", 2, "b")], t + 1);
    store.insert_results(&vec![seed_row("00005", 3, "c")], t + 2);
    assert_eq!(store.results.len(), 3);
    let got = query_serialized(&store, "132520", "FTA", 1, 10);
    assert_eq!(got.len(), 1);
    assert_eq!(got[0].serial_num, "00005");
    assert_eq!(got[0].created_at, t + 2);
}

#[test]
fn serial_range_query_sorts_and_filters() {
    let mut store = VoltechStore::new();
    store.insert_results(
        &vec![
            seed_row("7", 1, "a"),
            seed_row("3", 2, "a"),
            seed_row("12", 3, "a"),
            seed_row("5", 4, "a"),
        ],
        50,
    );
    let got = query_serialized(&store, "132520", "FTA", 1, 10);
    let serials: Vec<&str> = got.iter().map(|r| r.serial_num.as_str()).collect();
    assert_eq!(serials, vec!["3", "5", "7"]);
}

#[test]
fn manual_csv_parses_and_skips() {
    let good = "# header\n1,132520-LFT-DCR1,132520,FTA,B1,op,11/19/2025,10:00,100,PASS,0.1,0.2,0.3,Ohm\n";
    let rows = parse_manual_csv(good, "m.csv").expect("rows");
    assert_eq!(rows.len(), 1);
    assert_eq!(rows[0].test, "132520-LFT-DCR1");
    assert_eq!(rows[0].normalized_date, date_from_ymd(2025, 11, 19).unwrap());
    let short = "1,x,y\n";
    assert_eq!(parse_manual_csv(short, "m.csv").expect("skips").len(), 0);
    // row-level problems are non-fatal: the bad row is skipped, the good one kept
    let bad_date = "1,t,f,r,b,o,99/99/2025,10:00,100,PASS,0.1,0.2,0.3,Ohm\n\
2,132520-LFT-DCR2,132520,FTA,B1,op,11/19/2025,10:05,101,PASS,0.1,0.2,0.3,Ohm\n";
    let kept = parse_manual_csv(bad_date, "m.csv").expect("non-fatal");
    assert_eq!(kept.len(), 1);
    assert_eq!(kept[0].test, "132520-LFT-DCR2");
    let bad_num = "1,t,f,r,b,o,11/19/2025,10:00,100,PASS,abc,0.2,0.3,Ohm\n";
    assert_eq!(parse_manual_csv(bad_num, "m.csv").expect("non-fatal").len(), 0);
}

#[test]
fn settings_and_errors_lifecycle() {
    let mut store = VoltechStore::new();
    store.set_setting("server_path", "\\\\share\\voltech", 1);
    store.set_setting("base_path", "C:\\data", 2);
    store.set_setting("server_path", "\\\\share\\v2", 3);
    assert_eq!(store.get_setting("server_path").unwrap(), "\\\\share\\v2");
    let all = store.get_all_settings();
    assert_eq!(all.len(), 2);
    assert_eq!(all[0].key, "base_path");
    store.delete_setting("base_path");
    assert!(store.get_setting("base_path").is_none());

    let id = store.log_parse_error("f.atr", "bad line", Some(3), 100);
    let open = store.get_errors(Some(false), None);
    assert_eq!(open.len(), 1);
    assert_eq!(open[0].id, id);
    assert_eq!(store.acknowledge_errors(&vec![id]), 1);
    assert_eq!(store.get_errors(Some(false), None).len(), 0);
    assert_eq!(store.cleanup_old_errors(0, 200), 1);
    assert_eq!(store.errors.len(), 0);
}

#[test]
fn voltech_file_name_gate() {
    assert!(is_voltech_file("C1191125.atr"));
    assert!(is_voltech_file("C0000000.atr"));
    assert!(!is_voltech_file("C119112.atr"));
    assert!(!is_voltech_file("X1191125.atr"));
    assert!(!is_voltech_file("C1191125.csv"));
    assert!(!is_voltech_file("C11911250.atr"));
}

#[test]
fn path_shape_validation() {
    assert!(validate_path("\\\\server\\share").is_ok());
    assert!(validate_path("//server/share").is_ok());
    assert!(validate_path("C:\\data").is_ok());
    assert!(validate_path("C:/data").is_ok());
    assert!(validate_path("data/things").is_err());
    assert!(validate_path("").is_err());
}

#[test]
fn csv_line_quoting_and_cells() {
    let fields = parse_csv_line(&str_to_chars("a,\"b,c\",d"));
    let got: Vec<String> = fields.iter().map(|f| chars_to_string(f)).collect();
    assert_eq!(got, vec!["a", "b,c", "d"]);
    assert_eq!(chars_to_string(&clean_date(&str_to_chars("AAAAAAAAAAAAA111925"))), "19-11-25");
    assert_eq!(chars_to_string(&clean_date(&str_to_chars("short"))), "");
}

#[test]
fn cell_typing_basics() {
    assert_eq!(parse_int_chars(&str_to_chars("0012")), Some(12));
    assert_eq!(parse_int_chars(&str_to_chars("-7")), Some(-7));
    assert_eq!(parse_int_chars(&str_to_chars("1.5")), None);
    assert!(is_float_chars(&str_to_chars("1.5e-3")));
    assert!(is_float_chars(&str_to_chars("-.5")));
    assert!(!is_float_chars(&str_to_chars("1.2.3")));
    assert!(!is_float_chars(&str_to_chars("NONE")));
}

#[test]
fn parsed_file_binds_columns() {
    let rows = parse_file_to_rows(ATR, "C1191125.atr");
    assert_eq!(rows.len(), 3);
    assert_eq!(rows[0].part, "132520FTA");
    assert_eq!(rows[0].operator, "op1");
    assert_eq!(rows[0].batch, "B7");
    assert_eq!(rows[0].serial_num, "00005");
    assert_eq!(rows[0].result_num, 1);
    assert_eq!(rows[0].pass_fail, "Pass");
    assert!(rows[0].measurements.contains("002 LSReading"));
    let m = parse_measurements_json(&rows[0].measurements).expect("json");
    assert!(m.iter().any(|(k, _)| k == "002 LSReading"));
}

#[test]
fn mixed_source_completeness() {
    let mut store = VoltechStore::new();
    let mut row = seed_row("100", 1, "v");
    row.measurements = "{\"002 LS Reading\":1.5}".to_string();
    store.insert_results(&vec![row], 10);

    let manual = vec![manual_row("132520-LFT-DCR1", "10:00", "PASS", "0.2")];

    let (v_ok, v_cnt) = validate_voltech_serialized(&store, "132520", "002 LS Reading", 100, 100);
    assert!(v_ok);
    assert_eq!(v_cnt, 1);

    // a zero-padded serial matches in the numeric sense
    let mut padded = seed_row("00005", 2, "v2");
    padded.measurements = "{\"002 LS Reading\":1.5}".to_string();
    store.insert_results(&vec![padded], 11);
    let (p_ok, p_cnt) = validate_voltech_serialized(&store, "132520", "002 LS Reading", 1, 10);
    assert!(p_ok);
    assert_eq!(p_cnt, 1);
    let (m_ok, _) = validate_manual_serialized(&manual, "132520-LFT-DCR1", 100, 100);
    assert!(m_ok);
    assert!(report_is_complete(&vec![v_ok, m_ok]));

    let none: Vec<atr_ingest::model::ManualResultRow> = Vec::new();
    let (m_gone, _) = validate_manual_serialized(&none, "132520-LFT-DCR1", 100, 100);
    assert!(!m_gone);
    assert!(!report_is_complete(&vec![v_ok, m_gone]));
}

#[test]
fn admin_gate_resolves_user_and_permission() {
    let perms = parse_permissions("[\"admin\",\"user\"]").expect("parse");
    assert_eq!(perms, vec!["admin".to_string(), "user".to_string()]);
    assert!(is_admin(&perms));
    assert!(!is_admin(&vec!["user".to_string()]));
    assert!(parse_permissions("not json").is_none());

    let user = |name: &str, perms: &str| UserResponse {
        id: 1,
        name: name.to_string(),
        username: name.to_string(),
        preferences: String::new(),
        permissions: perms.to_string(),
        created_at: String::new(),
        updated_at: String::new(),
    };
    let users = vec![user("alice", "[\"admin\"]"), user("bob", "[\"user\"]")];
    assert_eq!(check_admin_permission(&users, "alice").unwrap(), true);
    assert_eq!(check_admin_permission(&users, "bob").unwrap(), false);
    assert!(check_admin_permission(&users, "carol").is_err());
}

#[test]
fn watcher_step_decides() {
    let st = WatcherSt { paused: false, last_maintenance: Some(0) };
    let (st1, acts) = watcher_step(st, WatcherEvent::Control(WatcherControl::Pause), 100);
    assert!(st1.paused);
    assert_eq!(acts, vec![WatcherAction::EmitPaused]);
    // paused: a poll tick under an own live lock does nothing
    let seen = Some(LockSeen { own: true, is_active: true });
    let (st2, acts) = watcher_step(st1, WatcherEvent::PollTick(seen), 100);
    assert!(acts.is_empty());
    // but the heartbeat stays alive while paused
    let (st3, acts) = watcher_step(st2, WatcherEvent::HeartbeatTick, 110);
    assert_eq!(acts, vec![WatcherAction::UpdateHeartbeat]);
    let (st4, acts) = watcher_step(st3, WatcherEvent::Control(WatcherControl::Resume), 120);
    assert_eq!(acts, vec![WatcherAction::EmitResumed]);
    // unpaused scan, with the maintenance sweep due after seven days
    let seen = Some(LockSeen { own: true, is_active: true });
    let (st5, acts) = watcher_step(st4, WatcherEvent::PollTick(seen), 700000);
    assert_eq!(acts, vec![WatcherAction::Scan, WatcherAction::RunMaintenance]);
    assert_eq!(st5.last_maintenance, Some(700000));
    // another's lock demotes
    let seen = Some(LockSeen { own: false, is_active: true });
    let (_, acts) = watcher_step(st5, WatcherEvent::PollTick(seen), 700010);
    assert_eq!(acts, vec![WatcherAction::Exit]);
    // a failed heartbeat demotes
    let st6 = WatcherSt { paused: false, last_maintenance: None };
    let (_, acts) = watcher_step(st6, WatcherEvent::HeartbeatResult(false), 1);
    assert_eq!(acts, vec![WatcherAction::Exit]);
    // stop releases and exits
    let st7 = WatcherSt { paused: false, last_maintenance: None };
    let (_, acts) = watcher_step(st7, WatcherEvent::Control(WatcherControl::Stop), 2);
    assert_eq!(acts, vec![WatcherAction::ReleaseLock, WatcherAction::Exit]);
}

#[test]
fn manual_query_dedups_and_sorts() {
    let mut a = manual_row("132520-LFT-DCR1", "10:00", "PASS", "0.1");
    a.sn = "00005".to_string();
    a.created_at = 10;
    let mut b = manual_row("132520-LFT-DCR1", "10:05", "PASS", "0.2");
    b.sn = "00005".to_string();
    b.created_at = 20;
    let mut c = manual_row("132520-LFT-DCR1", "10:10", "PASS", "0.3");
    c.sn = "3".to_string();
    c.created_at = 5;
    let mut d = manual_row("132520-LFT-DCR1", "10:15", "Fail", "0.4");
    d.sn = "4".to_string();
    let rows = vec![a, b, c, d];
    let got = query_manual_serialized(&rows, "132520", "FTA", 1, 10);
    let sns: Vec<&str> = got.iter().map(|r| r.sn.as_str()).collect();
    assert_eq!(sns, vec!["3", "00005"]);
    assert_eq!(got[1].created_at, 20);
}

#[test]
fn batch_sessions_group_and_sort() {
    let mut store = VoltechStore::new();
    let mut mk = |serial: &str, rn: i32, batch: &str, y: i32, m: u32, d: u32| {
        let mut r = seed_row(serial, rn, "f");
        r.batch = batch.to_string();
        r.measurements = "{\"002 LS Reading\":1.5}".to_string();
        r.normalized_date = date_from_ymd(y, m, d);
        r
    };
    store.insert_results(
        &vec![
            mk("1", 1, "B1", 2025, 11, 19),
            mk("2", 2, "B1", 2025, 11, 19),
            mk("3", 3, "B2", 2025, 11, 20),
            mk("4", 4, "B1", 2025, 11, 18),
        ],
        50,
    );
    let sessions = sessions_of(&store, "132520", "002 LS Reading");
    assert_eq!(sessions.len(), 3);
    assert_eq!(sessions[0].date, "2025-11-20");
    assert_eq!(sessions[0].batch, "B2");
    assert_eq!(sessions[0].record_count, 1);
    assert_eq!(sessions[1].date, "2025-11-19");
    assert_eq!(sessions[1].record_count, 2);
    assert_eq!(sessions[2].date, "2025-11-18");
}

#[test]
fn report_validation_over_both_sources() {
    let mut store = VoltechStore::new();
    let mut row = seed_row("100", 1, "v");
    row.measurements = "{\"002 LS Reading\":1.5}".to_string();
    store.insert_results(&vec![row], 10);
    let manual = vec![manual_row("132520-LFT-DCR1", "10:00", "PASS", "0.2")];
    let spec = |id: i32, source: &str, assoc: &str| TestSpec {
        test_id: id,
        test_name: format!("t{}", id),
        source_type: source.to_string(),
        associated_test: Some(assoc.to_string()),
        spec_min: None,
        spec_max: None,
        spec_unit: "Ohm".to_string(),
        voltage: None,
        frequency: None,
        primary_pins: None,
        description: None,
    };
    let tests = vec![
        spec(1, "voltech", "002 LS Reading"),
        spec(2, "manual", "132520-LFT-DCR1"),
        spec(3, "other", ""),
    ];
    let ok = validate_report(&tests, &store, &manual, "132520", true, None, Some((100, 100)));
    assert!(ok.is_complete);
    assert_eq!(ok.missing_test_count, 0);
    assert_eq!(ok.test_statuses.len(), 3);
    assert!(ok.test_statuses[2].has_data);

    let none: Vec<atr_ingest::model::ManualResultRow> = Vec::new();
    let bad = validate_report(&tests, &store, &none, "132520", true, None, Some((100, 100)));
    assert!(!bad.is_complete);
    assert_eq!(bad.missing_test_count, 1);
    assert!(!bad.test_statuses[1].has_data);

    let empty: Vec<TestSpec> = Vec::new();
    let hollow = validate_report(&empty, &store, &manual, "132520", true, None, Some((1, 2)));
    assert!(!hollow.is_complete);
}

#[test]
fn report_collection_gathers_results() {
    let mut store = VoltechStore::new();
    let mut row = seed_row("100", 1, "v");
    row.measurements = "{\"002 LS Reading\":1.5}".to_string();
    row.normalized_date = date_from_ymd(2025, 11, 19);
    store.insert_results(&vec![row], 10);
    let manual = vec![manual_row("132520-LFT-DCR1", "10:00", "PASS", "0.2")];
    let tests = vec![
        TestSpec {
            test_id: 1,
            test_name: "Inductance".to_string(),
            source_type: "voltech".to_string(),
            associated_test: Some("002 LS Reading".to_string()),
            spec_min: None,
            spec_max: None,
            spec_unit: "H".to_string(),
            voltage: None,
            frequency: None,
            primary_pins: None,
            description: None,
        },
        TestSpec {
            test_id: 2,
            test_name: "Manual DCR".to_string(),
            source_type: "manual".to_string(),
            associated_test: Some("132520-LFT-DCR1".to_string()),
            spec_min: Some("0.0".to_string()),
            spec_max: Some("2.0".to_string()),
            spec_unit: "Ohm".to_string(),
            voltage: None,
            frequency: None,
            primary_pins: None,
            description: None,
        },
    ];
    let sel = Selection {
        serialized: true,
        start_serial: 100,
        end_serial: 100,
        batch: None,
        selected_dates: None,
    };
    let data = collect_report_data(7, "132520", "FTA", "ACME", &tests, &store, &manual, &sel);
    assert_eq!(data.report_id, 7);
    assert_eq!(data.test_results.len(), 2);
    let v = &data.test_results[0].results;
    assert_eq!(v.len(), 1);
    assert_eq!(v[0].serial_number.as_deref(), Some("100"));
    assert_eq!(v[0].date, "2025-11-19");
    assert!(v[0].measurements.iter().any(|(k, _)| k == "002 LS Reading"));
    let m = &data.test_results[1].results;
    assert_eq!(m.len(), 1);
    assert_eq!(m[0].result, "PASS");
    match &m[0].measurements[1].1 {
        MeasValue::Num(s) => assert_eq!(s, "0.2"),
        _ => panic!("reading should be numeric text"),
    }
}

#[test]
fn serialized_grid_layout() {
    let tests_list = vec![TestSpec {
        test_id: 1,
        test_name: "Inductance".to_string(),
        source_type: "voltech".to_string(),
        associated_test: Some("002   LS Reading".to_string()),
        spec_min: Some("1.0".to_string()),
        spec_max: None,
        spec_unit: "H".to_string(),
        voltage: None,
        frequency: None,
        primary_pins: None,
        description: None,
    }];
    let meas = atr_ingest::measurements::parse_measurements_json(
        "{\"002 LS Reading\":1.5e-3}",
    )
    .expect("map");
    let parts = vec![
        PartData { sn: 100, has_data: true, measurements: meas },
        PartData { sn: 101, has_data: false, measurements: Vec::new() },
    ];
    let grid = layout_serialized(&tests_list, &parts, 100, 101, "J7", "S1", "D25");
    assert_eq!(grid.len(), 15);
    assert_eq!(grid[0].len(), 11);
    // the label column
    assert!(matches!(&grid[0][0], CellVal::Text(s) if s.contains("TEST REPORT")));
    assert!(matches!(&grid[3][0], CellVal::Text(s) if s == "Test"));
    assert!(matches!(&grid[12][0], CellVal::Text(s) if s == "SN"));
    assert!(matches!(&grid[1][4], CellVal::Text(s) if s == "J7"));
    // serial numbers from row 13 down
    assert!(matches!(&grid[13][0], CellVal::Num(s) if s == "100"));
    assert!(matches!(&grid[14][0], CellVal::Num(s) if s == "101"));
    // the test column: header fields, then the looked-up measurement
    assert!(matches!(&grid[3][1], CellVal::Text(s) if s == "Inductance"));
    assert!(matches!(&grid[7][1], CellVal::Text(s) if s == "1.0"));
    assert!(matches!(&grid[8][1], CellVal::Text(s) if s == "N/A"));
    assert!(matches!(&grid[13][1], CellVal::Num(s) if s == "1.5e-3"));
    assert!(matches!(&grid[14][1], CellVal::Empty));
}

#[test]
fn part_listing_distinct_and_sorted() {
    let mut store = VoltechStore::new();
    let mut a = seed_row("1", 1, "f");
    a.part = "MTPL-2013-0023LFTA".to_string();
    let mut b = seed_row("2", 2, "f");
    b.part = "132520FTA".to_string();
    let mut c = seed_row("3", 3, "f");
    c.part = "MTPL-2013-0023LFTA".to_string();
    store.insert_results(&vec![a, b, c], 5);
    let parts = get_all_part_numbers(&store);
    assert_eq!(parts, vec!["132520FTA".to_string(), "MTPL-2013-0023LFTA".to_string()]);
}

#[test]
fn serialized_collect_is_pass_only_and_deduped() {
    let mut store = VoltechStore::new();
    let mut pass_old = seed_row("00005", 1, "a");
    pass_old.measurements = "{\"002 LS Reading\":1.1}".to_string();
    let mut pass_new = seed_row("00005", 2, "b");
    pass_new.measurements = "{\"002 LS Reading\":1.2}".to_string();
    let mut failing = seed_row("6", 3, "c");
    failing.pass_fail = "Fail".to_string();
    failing.measurements = "{\"002 LS Reading\":9.9}".to_string();
    let mut other_part = seed_row("7", 4, "d");
    other_part.part = "999999XTA".to_string();
    other_part.measurements = "{\"002 LS Reading\":9.9}".to_string();
    store.insert_results(&vec![pass_old], 10);
    store.insert_results(&vec![pass_new], 20);
    store.insert_results(&vec![failing, other_part], 30);

    let sel = Selection {
        serialized: true,
        start_serial: 1,
        end_serial: 10,
        batch: None,
        selected_dates: None,
    };
    // keys are matched after whitespace normalisation
    let got = collect_voltech_test(&store, "132520FTA", "002   LS Reading", &sel);
    assert_eq!(got.len(), 1);
    assert_eq!(got[0].serial_number.as_deref(), Some("00005"));
    assert_eq!(got[0].result, "Pass");
    // the most recent duplicate won
    assert!(got[0]
        .measurements
        .iter()
        .any(|(k, v)| k == "002 LS Reading"
            && matches!(v, atr_ingest::measurements::MeasValue::Num(s) if s == "1.2")));
}

#[test]
fn collected_report_grid_rows() {
    let mut store = VoltechStore::new();
    let mut row = seed_row("100", 1, "v");
    row.measurements = "{\"002 LS Reading\":1.5}".to_string();
    row.normalized_date = date_from_ymd(2025, 11, 19);
    store.insert_results(&vec![row], 10);
    let manual: Vec<atr_ingest::model::ManualResultRow> = Vec::new();
    let tests = vec![TestSpec {
        test_id: 1,
        test_name: "Inductance".to_string(),
        source_type: "voltech".to_string(),
        associated_test: Some("002 LS Reading".to_string()),
        spec_min: Some("1.0".to_string()),
        spec_max: None,
        spec_unit: "H".to_string(),
        voltage: None,
        frequency: None,
        primary_pins: None,
        description: None,
    }];
    let sel = Selection {
        serialized: true,
        start_serial: 100,
        end_serial: 100,
        batch: None,
        selected_dates: None,
    };
    let data = collect_report_data(7, "132520", "FTA", "ACME", &tests, &store, &manual, &sel);
    let grid = layout_collected(&data);
    // the finished-good header block
    assert!(matches!(&grid[0][0], CellVal::Text(s) if s == "FG Number:"));
    assert!(matches!(&grid[0][1], CellVal::Text(s) if s == "132520"));
    assert!(matches!(&grid[3][0], CellVal::Text(s) if s == "Serial Range:"));
    assert!(matches!(&grid[3][1], CellVal::Text(s) if s == "100-100"));
    assert!(grid[4].is_empty());
    // the test section
    assert!(matches!(&grid[5][0], CellVal::Text(s) if s == "Test: Inductance"));
    assert!(matches!(&grid[7][0], CellVal::Text(s) if s == "Specification"));
    assert!(matches!(&grid[8][1], CellVal::Text(s) if s == "1.0"));
    assert!(matches!(&grid[8][2], CellVal::Text(s) if s == "N/A"));
    // the result table: header then the one deduplicated row
    assert!(matches!(&grid[10][0], CellVal::Text(s) if s == "Serial #"));
    assert!(matches!(&grid[10][4], CellVal::Text(s) if s == "002 LS Reading"));
    assert!(matches!(&grid[11][0], CellVal::Text(s) if s == "100"));
    assert!(matches!(&grid[11][3], CellVal::Text(s) if s == "Pass"));
    assert!(matches!(&grid[11][4], CellVal::Text(s) if s == "1.5"));
}
