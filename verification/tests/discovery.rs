use tick::archive::{checksum_url, index_url, make_url, zip_name};
use tick::index::{discover_all_symbols, extract_href_targets, symbols_of_page};
use tick::options::{parse_args_for_day, Args, Command};
use tick::select::{discovery_line, discovery_told, select_symbols, symbols_and_days};
use tick::symbols::{add_symbol_candidate, is_valid_symbol_dir, SymbolSet};

fn strings(v: &[&str]) -> Vec<String> {
    v.iter().map(|s| s.to_string()).collect()
}

fn args(argv: &[&str]) -> Args {
    match parse_args_for_day(&strings(argv), "2026-06-30") {
        Ok(Command::Run(a)) => a,
        _ => panic!("no run"),
    }
}

#[test]
fn symbol_names() {
    assert!(is_valid_symbol_dir("BTCUSDT"));
    assert!(is_valid_symbol_dir("1000SHIBUSDT"));
    assert!(is_valid_symbol_dir("ABC"));
    assert!(is_valid_symbol_dir(&"A".repeat(40)));
    assert!(!is_valid_symbol_dir("AB"));
    assert!(!is_valid_symbol_dir(&"A".repeat(41)));
    assert!(!is_valid_symbol_dir("btcusdt"));
    assert!(!is_valid_symbol_dir("BTCUSDT_260925"));
    assert!(!is_valid_symbol_dir("\u{c4}BC"));
}

#[test]
fn candidates_are_trimmed_and_cut() {
    let mut set = SymbolSet::new();
    add_symbol_candidate(&mut set, " /ethusdt/x/ ");
    add_symbol_candidate(&mut set, "BTCUSDT");
    add_symbol_candidate(&mut set, "btcusdt/");
    add_symbol_candidate(&mut set, "..");
    add_symbol_candidate(&mut set, "");
    assert_eq!(set.into_list(), strings(&["BTCUSDT", "ETHUSDT"]));
}

#[test]
fn links_are_found() {
    assert_eq!(
        extract_href_targets("<a href=\"x/\">x</a> <a href='y'> href=z href=\"\""),
        strings(&["x/", "y", ""])
    );
    assert_eq!(extract_href_targets("href="), strings(&[]));
    assert_eq!(extract_href_targets("href=\"open"), strings(&[]));
    assert_eq!(extract_href_targets("href=href='a\"b'"), strings(&["a\"b"]));
    assert_eq!(extract_href_targets("href=\u{2019}x href='q'"), strings(&["q"]));
    assert_eq!(extract_href_targets("nothing"), strings(&[]));
}

#[test]
fn pages_name_symbols_in_each_form() {
    let page = "<a href=\"../\">up</a>\
        <a href=' ethusdt/ '>e</a>\
        <a href=\"?prefix=data/futures/um/daily/aggTrades/ADAUSDT/\">a</a>\
        <a href=\"?prefix=data%2Ffutures%2Fum%2Fdaily%2FaggTrades%2FXRPUSDT%2F\">x</a>\
        <a href=\"/daily/aggTrades/BNBUSDT/y.zip\">b</a>\
        text /data/futures/um/daily/aggTrades/dotusdt-2 and \
        /data/futures/um/daily/aggTrades/ETHUSDT";
    assert_eq!(
        symbols_of_page(page),
        strings(&["ADAUSDT", "BNBUSDT", "DOTUSDT", "ETHUSDT", "XRPUSDT"])
    );
    assert_eq!(
        discover_all_symbols(&Some(page.to_string()), 2),
        Ok(strings(&["ADAUSDT", "BNBUSDT"]))
    );
    assert_eq!(discover_all_symbols(&Some(page.to_string()), 0).map(|v| v.len()), Ok(5));
    assert_eq!(discover_all_symbols(&Some(page.to_string()), 9).map(|v| v.len()), Ok(5));
}

#[test]
fn discovery_can_fail() {
    assert_eq!(
        discover_all_symbols(&None, 0),
        Err("cannot fetch symbol index: https://data.binance.vision/data/futures/um/daily/aggTrades/"
            .to_string())
    );
    assert_eq!(
        discover_all_symbols(&Some("<html>".to_string()), 0),
        Err("all-assets found zero symbols; Binance directory format may have changed".to_string())
    );
}

#[test]
fn symbols_are_selected() {
    let page = Some("<a href='ethusdt/'>".to_string());
    assert_eq!(select_symbols(&args(&[]), &page), Ok(strings(&["ETHUSDT"])));
    assert_eq!(
        select_symbols(&args(&["--symbols", "xrpusdt, btcusdt,,XRPUSDT ,a"]), &None),
        Ok(strings(&["A", "BTCUSDT", "XRPUSDT"]))
    );
    assert_eq!(select_symbols(&args(&["--symbols", " , "]), &page), Ok(strings(&[])));
    assert_eq!(
        select_symbols(&args(&["--symbol", " solusdt "]), &None),
        Ok(strings(&["SOLUSDT"]))
    );
    assert_eq!(
        select_symbols(&args(&["--symbol", "x", "--all-assets"]), &page),
        Ok(strings(&["ETHUSDT"]))
    );
    assert!(select_symbols(&args(&["--all-assets"]), &None).is_err());
    assert_eq!(discovery_line(12), "[DISCOVER] all-assets symbols=12");
}

#[test]
fn addresses() {
    assert_eq!(
        make_url("BTCUSDT", "2026-07-01"),
        "https://data.binance.vision/data/futures/um/daily/aggTrades/BTCUSDT/BTCUSDT-aggTrades-2026-07-01.zip"
    );
    assert_eq!(
        index_url(),
        "https://data.binance.vision/data/futures/um/daily/aggTrades/"
    );
    assert_eq!(checksum_url("u.zip"), "u.zip.CHECKSUM");
    assert_eq!(zip_name("BTCUSDT", "2026-07-01", 42), "tick-BTCUSDT-2026-07-01-42.zip");
}

#[test]
fn discovery_is_told_where_symbols_were_found() {
    let page = Some("<a href='ethusdt/'><a href='btcusdt/'>".to_string());
    assert_eq!(
        discovery_told(&args(&[]), &page),
        Some("[DISCOVER] all-assets symbols=2".to_string())
    );
    assert_eq!(
        discovery_told(&args(&["--max-symbols", "1"]), &page),
        Some("[DISCOVER] all-assets symbols=1".to_string())
    );
    assert_eq!(discovery_told(&args(&[]), &None), None);
    assert_eq!(discovery_told(&args(&["--symbol", "x"]), &page), None);
}

#[test]
fn symbols_are_looked_at_before_days() {
    let page = Some("<a href='ethusdt/'>".to_string());
    assert_eq!(
        symbols_and_days(&args(&["--end", "2026-07-01"]), &page),
        Ok((strings(&["ETHUSDT"]), strings(&["2026-06-30", "2026-07-01"])))
    );
    assert_eq!(
        symbols_and_days(&args(&["--start", "x"]), &page),
        Err("bad date: x; expected YYYY-MM-DD".to_string())
    );
    assert_eq!(
        symbols_and_days(&args(&["--start", "x"]), &Some(String::new())),
        Err("all-assets found zero symbols; Binance directory format may have changed".to_string())
    );
    assert_eq!(
        symbols_and_days(&args(&["--end", "9223372036854775807-01-01"]), &None),
        Err("cannot fetch symbol index: https://data.binance.vision/data/futures/um/daily/aggTrades/"
            .to_string())
    );
}
