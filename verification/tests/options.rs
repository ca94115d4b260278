use tick::clock::yesterday_utc_date;
use tick::options::{parse_args, parse_args_for_day, Args, Command};

fn strings(v: &[&str]) -> Vec<String> {
    v.iter().map(|s| s.to_string()).collect()
}

fn run(argv: &[&str]) -> Args {
    match parse_args_for_day(&strings(argv), "2026-06-30") {
        Ok(Command::Run(a)) => a,
        Ok(Command::Help) => panic!("help"),
        Err(e) => panic!("{e}"),
    }
}

fn complaint(argv: &[&str]) -> String {
    match parse_args_for_day(&strings(argv), "2026-06-30") {
        Err(e) => e,
        Ok(_) => panic!("no complaint"),
    }
}

#[test]
fn defaults_of_a_run() {
    let a = run(&[]);
    assert_eq!(a.symbol, "BTCUSDT");
    assert_eq!(a.symbols, None);
    assert!(a.all_assets);
    assert_eq!((a.max_symbols, a.max_rows), (0, 0));
    assert_eq!((a.start.as_str(), a.end.as_str()), ("2026-06-30", "2026-06-30"));
    assert_eq!(a.out, "input-bn.txt");
    assert!(!a.append && !a.resume && !a.verify && !a.keep_zip);
    assert_eq!(a.tmp_dir, None);
    assert!(!a.append_mode());
}

#[test]
fn every_option_is_taken() {
    let a = run(&[
        "--symbol", "ethusdt", "--symbols", "a,b", "--start", "2026-07-01", "--end", "2026-07-02",
        "--out", "o.txt", "--append", "--resume", "--verify", "--keep-zip", "--all-assets",
        "--max-rows", "7", "--max-symbols", "+8", "--tmp-dir", "/t",
    ]);
    assert_eq!(a.symbol, "ETHUSDT");
    assert_eq!(a.symbols, Some("a,b".to_string()));
    assert_eq!((a.start.as_str(), a.end.as_str()), ("2026-07-01", "2026-07-02"));
    assert_eq!(a.out, "o.txt");
    assert!(a.append && a.resume && a.verify && a.keep_zip && a.all_assets);
    assert_eq!((a.max_rows, a.max_symbols), (7, 8));
    assert_eq!(a.tmp_dir, Some("/t".to_string()));
    assert!(a.append_mode());
    assert!(run(&["--append"]).append_mode());
    assert!(run(&["--resume"]).append_mode());
}

#[test]
fn days_default_to_each_other() {
    let a = run(&["--start", "2026-01-01"]);
    assert_eq!((a.start.as_str(), a.end.as_str()), ("2026-01-01", "2026-01-01"));
    let a = run(&["--end", "2026-08-01"]);
    assert_eq!((a.start.as_str(), a.end.as_str()), ("2026-06-30", "2026-08-01"));
}

#[test]
fn naming_a_symbol_turns_all_assets_off() {
    assert!(!run(&["--symbol", "X"]).all_assets);
    assert!(!run(&["--symbols", "X"]).all_assets);
    assert!(run(&["--symbol", "X", "--all-assets"]).all_assets);
}

#[test]
fn last_value_counts() {
    let a = run(&["--out", "a", "--verify", "--out", "b"]);
    assert_eq!(a.out, "b");
    assert!(a.verify);
}

#[test]
fn values_are_taken_as_they_are() {
    assert_eq!(run(&["--out", "--help"]).out, "--help");
    assert_eq!(run(&["--out", "x y"]).out, "x y");
}

#[test]
fn help_is_given_at_once() {
    for argv in [&["--help"][..], &["-h"], &["--verify", "-h", "oops"]] {
        assert!(matches!(parse_args_for_day(&strings(argv), "d"), Ok(Command::Help)));
    }
}

#[test]
fn complaints() {
    assert_eq!(complaint(&["x"]), "unexpected positional argument: x");
    assert_eq!(complaint(&["-x", "--help"]), "unexpected positional argument: -x");
    assert_eq!(complaint(&["--out"]), "missing value after --out");
    assert_eq!(complaint(&["--nope"]), "unknown option: --nope");
    assert_eq!(complaint(&["--"]), "unknown option: --");
    assert_eq!(
        complaint(&["--max-rows", "x", "--max-symbols", "y"]),
        "bad --max-rows: invalid digit found in string"
    );
    assert_eq!(
        complaint(&["--max-symbols", "-1"]),
        "bad --max-symbols: invalid digit found in string"
    );
    assert_eq!(
        complaint(&["--max-rows", "99999999999999999999999"]),
        "bad --max-rows: number too large to fit in target type"
    );
}

#[test]
fn yesterday_is_the_default_day() {
    let before = yesterday_utc_date();
    let got = match parse_args(&strings(&["--verify"])) {
        Ok(Command::Run(a)) => a,
        _ => panic!("no run"),
    };
    let after = yesterday_utc_date();
    assert!(got.start == before || got.start == after);
    assert_eq!(got.start, got.end);
    assert!(got.verify);
    assert_eq!(
        parse_args(&strings(&["x"])).err(),
        Some("unexpected positional argument: x".to_string())
    );
}

#[test]
fn order_of_options_does_not_matter() {
    let groups: [&[&str]; 5] = [
        &["--symbol", "x"],
        &["--resume"],
        &["--end", "2026-07-02"],
        &["--max-rows", "3"],
        &["--append"],
    ];
    let want = format!("{:?}", run(&groups.concat()));
    for i in 0..groups.len() {
        let mut turned = groups;
        turned.rotate_left(i);
        assert_eq!(format!("{:?}", run(&turned.concat())), want);
        turned.reverse();
        assert_eq!(format!("{:?}", run(&turned.concat())), want);
    }
}
