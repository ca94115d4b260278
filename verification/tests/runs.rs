use tick::checksum::{
    command_output_first_word, sha256_file, verify_checksum, CheckStep, DigestStep,
};
use tick::ingest::{finish_zip, DayTally, Ingest};
use tick::options::{parse_args_for_day, Command};
use tick::plan::{config_line, Phase, Plan, Report, Task, Turn};
use tick::seen::{known_at_start, load_seen_keys, SeenKeys};

fn strings(v: &[&str]) -> Vec<String> {
    v.iter().map(|s| s.to_string()).collect()
}

fn csv() -> Vec<String> {
    strings(&[
        "agg_trade_id,price,quantity,first_trade_id,last_trade_id,transact_time,is_buyer_maker",
        "1,1.0,2,1,1,10,true",
        "",
        "2,1.5,2,2,3,11,false",
        "1,1.0,2,1,1,10,true",
        "3,1.6,2,4,4,12,false",
    ])
}

fn ids(rows: &[String]) -> Vec<i64> {
    rows.iter()
        .map(|r| tick::json::extract_json_i64(r, "a").unwrap())
        .collect()
}

#[test]
fn keys_are_kept_by_symbol_and_id() {
    let mut seen = SeenKeys::new();
    assert!(!seen.contains("A", 1));
    seen.insert("A".to_string(), 1);
    seen.insert("B".to_string(), 1);
    seen.insert("A".to_string(), 1);
    seen.insert("A".to_string(), i64::MIN);
    assert!(seen.contains("A", 1) && seen.contains("B", 1) && seen.contains("A", i64::MIN));
    assert!(!seen.contains("C", 1) && !seen.contains("B", 2));
}

#[test]
fn keys_are_loaded_from_lines() {
    let mut seen = SeenKeys::new();
    seen.insert("Z".to_string(), 9);
    load_seen_keys(
        &strings(&["{\"s\":\"A\",\"a\":5,", "{\"s\":\"B\"}", "", "{\"a\":7}", "{\"s\":\"C\",\"a\":-1}"]),
        &mut seen,
    );
    assert!(seen.contains("A", 5) && seen.contains("C", -1) && seen.contains("Z", 9));
    assert!(!seen.contains("B", 5) && !seen.contains("", 7));
}

#[test]
fn keys_of_the_output_count_only_when_resuming() {
    let lines = strings(&["{\"s\":\"A\",\"a\":5,"]);
    for (flag, known) in [("--resume", true), ("--append", false), ("--verify", false)] {
        let args = match parse_args_for_day(&strings(&[flag]), "d") {
            Ok(Command::Run(a)) => a,
            _ => panic!("no run"),
        };
        assert_eq!(known_at_start(&args, &lines).contains("A", 5), known);
    }
}

#[test]
fn each_key_is_written_once() {
    let mut ingest = Ingest::new(SeenKeys::new(), 0);
    let mut day = DayTally::new();
    let batch = ingest.process_lines("BTCUSDT", &csv(), &mut day);
    assert!(batch.fault.is_none());
    assert_eq!(ids(&batch.rows), vec![1, 2, 3]);
    assert_eq!((day.rows, day.hit_limit, ingest.total), (3, false, 3));
    let batch = ingest.process_lines("ETHUSDT", &csv(), &mut day);
    assert_eq!(ids(&batch.rows), vec![1, 2, 3]);
    assert_eq!((day.rows, ingest.total), (6, 6));
}

#[test]
fn portions_make_no_difference() {
    let mut whole = Ingest::new(SeenKeys::new(), 3);
    let mut parts = Ingest::new(SeenKeys::new(), 3);
    let (mut d1, mut d2) = (DayTally::new(), DayTally::new());
    let want = whole.process_lines("X", &csv(), &mut d1).rows;
    let mut got: Vec<String> = Vec::new();
    for line in csv() {
        if d2.hit_limit {
            break;
        }
        got.extend(parts.process_lines("X", &vec![line], &mut d2).rows);
    }
    assert_eq!(got, want);
    assert_eq!((d1.rows, d1.hit_limit), (d2.rows, d2.hit_limit));
}

#[test]
fn limit_of_rows_stops_the_reading() {
    let mut ingest = Ingest::new(SeenKeys::new(), 2);
    let mut day = DayTally::new();
    let mut lines = csv();
    lines.push("4,broken".to_string());
    let batch = ingest.process_lines("X", &lines, &mut day);
    assert_eq!(ids(&batch.rows), vec![1, 2]);
    assert!(batch.fault.is_none());
    assert_eq!((day.rows, day.hit_limit, ingest.total), (2, true, 2));
}

#[test]
fn resuming_adds_what_is_missing() {
    let mut first = Ingest::new(SeenKeys::new(), 2);
    let mut day = DayTally::new();
    let mut file = first.process_lines("X", &csv(), &mut day).rows;
    let mut seen = SeenKeys::new();
    load_seen_keys(&file, &mut seen);
    let mut second = Ingest::new(seen, 0);
    let mut day = DayTally::new();
    let more = second.process_lines("X", &csv(), &mut day).rows;
    assert_eq!(ids(&more), vec![3]);
    file.extend(more);
    let mut seen = SeenKeys::new();
    load_seen_keys(&file, &mut seen);
    let mut third = Ingest::new(seen, 0);
    let mut day = DayTally::new();
    assert!(third.process_lines("X", &csv(), &mut day).rows.is_empty());
    assert_eq!(day.rows, 0);
}

#[test]
fn resuming_over_several_files_writes_each_key_once() {
    let files = [("X", csv()), ("Y", csv()), ("X", csv())];
    let run = |seen: SeenKeys, max_rows: usize| -> Vec<String> {
        let mut ingest = Ingest::new(seen, max_rows);
        let mut rows: Vec<String> = Vec::new();
        for (symbol, lines) in &files {
            let mut day = DayTally::new();
            rows.extend(ingest.process_lines(symbol, lines, &mut day).rows);
            if day.hit_limit {
                break;
            }
        }
        rows
    };
    let whole = run(SeenKeys::new(), 0);
    assert_eq!(ids(&whole), vec![1, 2, 3, 1, 2, 3]);
    for max_rows in 1..8 {
        let mut file = run(SeenKeys::new(), max_rows);
        assert_eq!(file, whole[..max_rows.min(6)]);
        let mut seen = SeenKeys::new();
        load_seen_keys(&file, &mut seen);
        file.extend(run(seen, 0));
        assert_eq!(file, whole);
    }
}

#[test]
fn faults_end_a_batch_behind_the_rows_before() {
    let mut ingest = Ingest::new(SeenKeys::new(), 0);
    let mut day = DayTally::new();
    let batch = ingest.process_lines(
        "X",
        &strings(&["1,1,1,1,1,1,1", "2,2", "3,1,1,1,1,1,1"]),
        &mut day,
    );
    assert_eq!(ids(&batch.rows), vec![1]);
    assert_eq!(
        batch.fault.map(|f| f.message()),
        Some("bad row length=2 row=\"2,2\"".to_string())
    );
    assert_eq!((day.rows, ingest.total), (1, 1));
}

#[test]
fn unpacking_counts_unless_the_limit_was_hit() {
    let open = DayTally { rows: 4, hit_limit: false };
    let full = DayTally { rows: 4, hit_limit: true };
    assert_eq!(finish_zip(true, &open, "\"z\"", "exit status: 0"), Ok((4, false)));
    assert_eq!(finish_zip(false, &full, "\"z\"", "signal: 13"), Ok((4, true)));
    assert_eq!(
        finish_zip(false, &open, "\"z\"", "exit status: 9"),
        Err("unzip failed for \"z\": status=exit status: 9".to_string())
    );
}

#[test]
fn a_file_that_does_not_unpack_keeps_its_rows_and_ends_the_run() {
    let files = [("X", csv(), true), ("Y", csv(), false), ("Z", csv(), true)];
    for (max_rows, want, error) in [(0, 6, true), (5, 5, false), (6, 6, false), (7, 6, true)] {
        let mut ingest = Ingest::new(SeenKeys::new(), max_rows);
        let mut rows: Vec<String> = Vec::new();
        let mut ended: Option<String> = None;
        for (symbol, lines, unpacks) in &files {
            let mut day = DayTally::new();
            rows.extend(ingest.process_lines(symbol, lines, &mut day).rows);
            match finish_zip(*unpacks, &day, "\"z\"", "exit status: 9") {
                Err(e) => {
                    ended = Some(e);
                    break;
                }
                Ok((_, hit_limit)) => {
                    if hit_limit {
                        break;
                    }
                }
            }
        }
        assert_eq!(rows.len(), want);
        assert_eq!(ended.is_some(), error);
    }
}

#[test]
fn first_words_of_output() {
    assert_eq!(
        command_output_first_word(true, " ABC12  file.zip\n"),
        Some("abc12".to_string())
    );
    assert_eq!(command_output_first_word(true, " \n"), None);
    assert_eq!(command_output_first_word(false, "abc"), None);
}

#[test]
fn digest_tools_are_asked_in_turn() {
    match sha256_file("p", &vec![]) {
        DigestStep::Run { command, arguments } => {
            assert_eq!((command.as_str(), arguments), ("sha256sum", strings(&["p"])));
        }
        _ => panic!(),
    }
    match sha256_file("p", &vec![None]) {
        DigestStep::Run { command, arguments } => {
            assert_eq!((command.as_str(), arguments), ("shasum", strings(&["-a", "256", "p"])));
        }
        _ => panic!(),
    }
    let x = Some("d".to_string());
    assert!(matches!(sha256_file("p", &vec![x.clone()]), DigestStep::Found(Some(d)) if d == "d"));
    assert!(matches!(sha256_file("p", &vec![None, x]), DigestStep::Found(Some(d)) if d == "d"));
    assert!(matches!(sha256_file("p", &vec![None, None]), DigestStep::Found(None)));
}

fn verdict(reply: Option<&str>, answers: &[Option<&str>]) -> (bool, Vec<String>) {
    let reply = Some(reply.map(|s| s.to_string()));
    let answers = answers.iter().map(|a| a.map(|s| s.to_string())).collect();
    match verify_checksum("u", "p", &reply, &answers) {
        CheckStep::Done { pass, lines } => (pass, lines),
        _ => panic!("no verdict"),
    }
}

#[test]
fn a_check_goes_step_by_step() {
    match verify_checksum("u", "p", &None, &vec![]) {
        CheckStep::Fetch { url } => assert_eq!(url, "u.CHECKSUM"),
        _ => panic!("no fetch"),
    }
    let reply = Some(Some("ab12  u".to_string()));
    match verify_checksum("u", "p", &reply, &vec![]) {
        CheckStep::Run { command, arguments } => {
            assert_eq!((command.as_str(), arguments), ("sha256sum", strings(&["p"])));
        }
        _ => panic!("no run"),
    }
    match verify_checksum("u", "p", &reply, &vec![None]) {
        CheckStep::Run { command, arguments } => {
            assert_eq!((command.as_str(), arguments), ("shasum", strings(&["-a", "256", "p"])));
        }
        _ => panic!("no run"),
    }
}

#[test]
fn files_without_a_published_digest_pass() {
    assert_eq!(
        verdict(None, &[]),
        (true, strings(&["[WARN] checksum missing: u.CHECKSUM"]))
    );
    assert_eq!(
        verdict(Some(" \n"), &[]),
        (true, strings(&["[WARN] checksum empty: u.CHECKSUM"]))
    );
}

#[test]
fn files_without_a_digest_of_their_own_pass() {
    assert_eq!(
        verdict(Some("ab12"), &[None, None]),
        (
            true,
            strings(&["[WARN] sha256sum/shasum not found; skip checksum verification"])
        )
    );
}

#[test]
fn digests_are_compared() {
    assert_eq!(verdict(Some("AB12  u\n"), &[Some("ab12")]), (true, Vec::new()));
    assert_eq!(verdict(Some("ab12"), &[None, Some("ab12")]), (true, Vec::new()));
    assert_eq!(
        verdict(Some("ab12"), &[Some("cd"), Some("ab12")]),
        (
            false,
            strings(&[
                "[FAIL] checksum mismatch: u",
                "       expected=ab12",
                "       actual  =cd",
            ])
        )
    );
}

fn told(turn: &Turn) -> Vec<String> {
    turn.reports.iter().map(|r| r.line(42, "\"o\"")).collect()
}

fn fetch(turn: &Turn) -> (String, String) {
    match &turn.next {
        Task::Fetch { symbol, day, url } => {
            assert_eq!(*url, tick::archive::make_url(symbol, day));
            (symbol.clone(), day.clone())
        }
        _ => panic!("no fetch"),
    }
}

fn pair(a: &str, b: &str) -> (String, String) {
    (a.to_string(), b.to_string())
}

#[test]
fn a_run_goes_through_all_pairs() {
    let (mut plan, turn) = Plan::begin(strings(&["A", "B"]), strings(&["d1", "d2"]), true, false);
    assert_eq!(fetch(&turn), pair("A", "d1"));
    assert!(told(&turn).is_empty() && !turn.drop_zip);

    let turn = plan.downloaded(true);
    assert!(matches!(&turn.next, Task::Check { url } if url.ends_with("/A/A-aggTrades-d1.zip")));
    let turn = plan.checked(true);
    assert!(matches!(&turn.next, Task::Read { symbol } if symbol == "A"));
    let turn = plan.read(5, false);
    assert_eq!(told(&turn), strings(&["[OK] A d1 rows=5"]));
    assert!(turn.drop_zip);
    assert_eq!(fetch(&turn), pair("A", "d2"));

    let turn = plan.downloaded(false);
    assert_eq!(
        told(&turn),
        strings(&["[SKIP] not found/download failed: A d2", "[ASSET] A total_rows=5"])
    );
    assert!(turn.drop_zip);
    assert_eq!(fetch(&turn), pair("B", "d1"));

    plan.downloaded(true);
    let turn = plan.checked(false);
    assert_eq!(told(&turn), strings(&["[SKIP] checksum failed: B d1"]));
    assert!(turn.reports[0].is_complaint() && turn.drop_zip);
    assert_eq!(fetch(&turn), pair("B", "d2"));

    let turn = plan.downloaded(false);
    assert_eq!(
        told(&turn),
        strings(&[
            "[SKIP] not found/download failed: B d2",
            "[ASSET] B total_rows=0",
            "[DONE] wrote rows=42 file=\"o\" assets_ok=1 assets_empty=1",
        ])
    );
    assert!(!turn.reports[0].is_complaint());
    assert!(matches!(turn.next, Task::Stop));
    assert_eq!(plan.phase, Phase::Over);
}

#[test]
fn the_limit_ends_a_run() {
    let (mut plan, _) = Plan::begin(strings(&["A", "B"]), strings(&["d1"]), false, true);
    let turn = plan.downloaded(true);
    assert!(matches!(&turn.next, Task::Read { symbol } if symbol == "A"));
    let turn = plan.read(3, true);
    assert_eq!(told(&turn), strings(&["[OK] A d1 rows=3", "[DONE] max rows reached: 42"]));
    assert!(!turn.drop_zip);
    assert!(matches!(turn.next, Task::Stop));
}

#[test]
fn a_run_without_symbols_is_over_at_once() {
    let (plan, turn) = Plan::begin(Vec::new(), strings(&["d1"]), false, false);
    assert_eq!(plan.phase, Phase::Over);
    assert_eq!(
        told(&turn),
        strings(&["[DONE] wrote rows=42 file=\"o\" assets_ok=0 assets_empty=0"])
    );
    assert!(matches!(turn.reports[0], Report::AllDone { .. }));
}

#[test]
fn a_run_without_days_closes_every_symbol() {
    let (plan, turn) = Plan::begin(strings(&["A", "B"]), Vec::new(), false, false);
    assert_eq!(plan.phase, Phase::Over);
    assert_eq!(
        told(&turn),
        strings(&[
            "[ASSET] A total_rows=0",
            "[ASSET] B total_rows=0",
            "[DONE] wrote rows=42 file=\"o\" assets_ok=0 assets_empty=2",
        ])
    );
}

#[test]
fn configuration_is_told() {
    let a = match parse_args_for_day(&strings(&["--symbol", "x", "--end", "2026-07-02"]), "2026-07-01") {
        Ok(Command::Run(a)) => a,
        _ => panic!(),
    };
    assert_eq!(
        config_line(&a, "\"o\""),
        "[CONFIG] mode=selected start=2026-07-01 end=2026-07-02 out=\"o\""
    );
    let a = match parse_args_for_day(&strings(&[]), "2026-07-01") {
        Ok(Command::Run(a)) => a,
        _ => panic!(),
    };
    assert_eq!(
        config_line(&a, "\"o\""),
        "[CONFIG] mode=all-assets start=2026-07-01 end=2026-07-01 out=\"o\""
    );
}
