use todox::cli::ConvertArgs;
use todox::convert::{
    convert_text, decode, encode, encode_toon, file_step, plan_conversion, summary_line, tally,
    ConvertError, Direction, FileStep, Outcome, Plan, Stats,
};

fn args() -> ConvertArgs {
    ConvertArgs {
        path: None,
        dry_run: false,
        keep: false,
        force: false,
        quiet: true,
    }
}

#[test]
fn direction_extensions() {
    assert_eq!(Direction::JsonToToon.source_ext(), "json");
    assert_eq!(Direction::JsonToToon.target_ext(), "toon");
    assert_eq!(Direction::ToonToJson.source_ext(), "toon");
    assert_eq!(Direction::ToonToJson.target_ext(), "json");
}

#[test]
fn plan_skips_existing_target_without_force() {
    match plan_conversion(true, &args()) {
        Plan::Skip(reason) => assert_eq!(reason, "target exists (use --force to overwrite)"),
        other => panic!("unexpected plan {other:?}"),
    }
    let mut a = args();
    a.force = true;
    assert!(matches!(
        plan_conversion(true, &a),
        Plan::Convert { write_target: true, remove_source: true }
    ));
}

#[test]
fn plan_dry_run_and_keep() {
    let mut a = args();
    a.dry_run = true;
    assert!(matches!(
        plan_conversion(false, &a),
        Plan::Convert { write_target: false, remove_source: false }
    ));
    let mut a = args();
    a.keep = true;
    assert!(matches!(
        plan_conversion(false, &a),
        Plan::Convert { write_target: true, remove_source: false }
    ));
    assert!(matches!(
        plan_conversion(false, &args()),
        Plan::Convert { write_target: true, remove_source: true }
    ));
}

#[test]
fn stats_tally_and_summary() {
    let mut stats = Stats::new();
    stats.record(&Outcome::Converted { deleted: true });
    stats.record(&Outcome::Converted { deleted: false });
    stats.record(&Outcome::Skipped("x"));
    assert!(!stats.has_failures());
    stats.record_failure();
    assert!(stats.has_failures());
    assert_eq!(
        summary_line(&stats, Direction::JsonToToon, false),
        "json -> toon: 2 converted, 1 skipped, 1 deleted, 1 failed"
    );
    stats.converted = 1205;
    assert_eq!(
        summary_line(&stats, Direction::ToonToJson, true),
        "[dry-run] toon -> json: 1205 converted, 1 skipped, 1 deleted, 1 failed"
    );
}

#[test]
fn json_to_toon_text_round_trips() {
    let out = convert_text(
        r#"{"title":"X","estimate":"5m","status":"todo"}"#,
        Direction::JsonToToon,
    )
    .unwrap();
    let back = toon_format::decode_default(&out).unwrap();
    assert_eq!(back["estimate"], "5m");
    assert_eq!(back["title"], "X");
    assert_eq!(back["status"], "todo");
}

#[test]
fn toon_to_json_text() {
    let out = convert_text("title: Y\nstatus: done\n", Direction::ToonToJson).unwrap();
    assert!(out.ends_with('\n'));
    let v: serde_json::Value = serde_json::from_str(&out).unwrap();
    assert_eq!(v["title"], "Y");
    assert_eq!(v["status"], "done");
}

#[test]
fn decode_reports_invalid_sources() {
    assert!(matches!(
        decode("not valid json", Direction::JsonToToon),
        Err(ConvertError::InvalidJson(_))
    ));
    assert!(matches!(
        convert_text("{", Direction::JsonToToon),
        Err(ConvertError::InvalidJson(_))
    ));
    let v = decode("a: 1", Direction::ToonToJson).unwrap();
    assert_eq!(v["a"], 1);
}

#[test]
fn multiword_array_strings_survive_encoding() {
    let v: serde_json::Value = serde_json::from_str(
        r#"{"title":"X","sections":[{"subtitle":"Risks","content":["Long titles may wrap badly","Deep nesting may need scroll support"]}]}"#,
    )
    .unwrap();
    let text = encode_toon(&v).unwrap();
    let back = toon_format::decode_default(&text).unwrap();
    assert_eq!(back, v);
}

#[test]
fn encode_json_is_pretty_with_newline() {
    let v: serde_json::Value = serde_json::from_str(r#"{"a":1}"#).unwrap();
    assert_eq!(encode(&v, Direction::ToonToJson).unwrap(), "{\n  \"a\": 1\n}\n");
    let t = encode(&v, Direction::JsonToToon).unwrap();
    assert_eq!(t, "a: 1");
}

#[test]
fn failed_conversion_writes_and_removes_nothing() {
    let failed = convert_text("not json", Direction::JsonToToon);
    assert!(matches!(
        file_step(true, true, failed),
        FileStep::Fail(ConvertError::InvalidJson(_))
    ));
}

#[test]
fn successful_conversion_follows_the_plan() {
    match file_step(true, false, Ok("title: X\n".to_string())) {
        FileStep::Write { text, remove_source } => {
            assert_eq!(text, "title: X\n");
            assert!(!remove_source);
        }
        other => panic!("unexpected step: {other:?}"),
    }
    match file_step(true, true, Ok("a".to_string())) {
        FileStep::Write { remove_source, .. } => assert!(remove_source),
        other => panic!("unexpected step: {other:?}"),
    }
    assert!(matches!(file_step(false, false, Ok("a".to_string())), FileStep::Preview));
}

#[test]
fn tally_counts_a_whole_run() {
    let results = vec![
        Some(Outcome::Converted { deleted: true }),
        Some(Outcome::Skipped("target exists (use --force to overwrite)")),
        None,
        Some(Outcome::Converted { deleted: false }),
    ];
    let stats = tally(&results);
    assert_eq!(
        (stats.converted, stats.skipped, stats.deleted, stats.failed),
        (2, 1, 1, 1)
    );
    assert!(stats.has_failures());
    assert_eq!(
        summary_line(&stats, Direction::JsonToToon, false),
        "json -> toon: 2 converted, 1 skipped, 1 deleted, 1 failed"
    );
    let clean = tally(&vec![Some(Outcome::Converted { deleted: false })]);
    assert!(!clean.has_failures());
    let empty = tally(&Vec::new());
    assert_eq!(empty.converted + empty.skipped + empty.deleted + empty.failed, 0);
}
