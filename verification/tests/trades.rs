use tick::json::{extract_json_i64, extract_json_string, json_escape, to_json_line};
use tick::trade::{is_header, parse_aggtrade_row, parse_bool, AggTrade};

fn trade(s: &str) -> AggTrade {
    AggTrade {
        s: s.to_string(),
        a: 5933014,
        p: "0.001".to_string(),
        q: "100".to_string(),
        f: 100,
        l: 105,
        t: 123456785,
        m: true,
    }
}

#[test]
fn booleans_are_read_in_any_case() {
    for x in ["true", "1", "t", "yes", " TRUE ", "Yes\n", "T"] {
        assert_eq!(parse_bool(x), Ok(true));
    }
    for x in ["false", "0", "f", "no", " False", "NO", "F\t"] {
        assert_eq!(parse_bool(x), Ok(false));
    }
}

#[test]
fn other_words_are_no_booleans() {
    assert_eq!(parse_bool("Maybe"), Err("invalid boolean: \"maybe\"".to_string()));
    assert_eq!(parse_bool(""), Err("invalid boolean: \"\"".to_string()));
    assert_eq!(parse_bool("a\"\n\u{7}b"), Err("invalid boolean: \"a\\\"\\n\\u{7}b\"".to_string()));
}

#[test]
fn headers_are_rows_without_an_id() {
    assert!(is_header(&[]));
    assert!(is_header(&["agg_trade_id", "price"]));
    assert!(is_header(&[" AggTradeId "]));
    assert!(is_header(&["ID"]));
    assert!(is_header(&["Aggregate tradeId"]));
    assert!(is_header(&["12x"]));
    assert!(is_header(&[""]));
    assert!(!is_header(&[" 12 ", "x"]));
    assert!(!is_header(&["-3"]));
}

#[test]
fn rows_are_read() {
    let x = parse_aggtrade_row("BTCUSDT", " 5933014, 0.001 ,100,100,105,123456785,True,extra \n")
        .unwrap()
        .unwrap();
    assert_eq!(
        to_json_line(&x),
        "{\"s\":\"BTCUSDT\",\"a\":5933014,\"p\":\"0.001\",\"q\":\"100\",\"f\":100,\"l\":105,\"T\":123456785,\"m\":true}"
    );
    assert_eq!(x.p, "0.001");
    assert_eq!((x.f, x.l, x.t, x.m), (100, 105, 123456785, true));
}

#[test]
fn blank_rows_and_headers_are_passed_over() {
    assert!(parse_aggtrade_row("X", "").unwrap().is_none());
    assert!(parse_aggtrade_row("X", " \t ").unwrap().is_none());
    assert!(parse_aggtrade_row(
        "X",
        "agg_trade_id,price,quantity,first_trade_id,last_trade_id,transact_time,is_buyer_maker"
    )
    .unwrap()
    .is_none());
    assert!(parse_aggtrade_row("X", "oops,1").unwrap().is_none());
}

fn fault(line: &str) -> String {
    match parse_aggtrade_row("X", line) {
        Err(e) => e,
        Ok(_) => panic!("no fault in {line:?}"),
    }
}

#[test]
fn faults_of_rows_are_told() {
    assert_eq!(fault(" 1,2,3 "), "bad row length=3 row=\"1,2,3\"");
    assert_eq!(
        fault("1,2,3, x,5,6,true"),
        "bad f=\" x\": invalid digit found in string"
    );
    assert_eq!(
        fault("1,2,3,4,,6,true"),
        "bad l=\"\": cannot parse integer from empty string"
    );
    assert_eq!(
        fault("1,2,3,4,5,99999999999999999999,true"),
        "bad T=\"99999999999999999999\": number too large to fit in target type"
    );
    assert_eq!(
        fault("1,2,3,-99999999999999999999,x,6,true"),
        "bad f=\"-99999999999999999999\": number too small to fit in target type"
    );
    assert_eq!(fault("1,2,3,4,5,6,Perhaps"), "invalid boolean: \"perhaps\"");
}

#[test]
fn strings_are_escaped() {
    assert_eq!(json_escape("plain \u{e9}\u{1f600}"), "plain \u{e9}\u{1f600}");
    assert_eq!(json_escape("a\"b\\c"), "a\\\"b\\\\c");
    assert_eq!(json_escape("\n\r\t"), "\\n\\r\\t");
    assert_eq!(json_escape("\u{0}\u{1f}\u{7f}\u{9f}"), "\\u0000\\u001f\\u007f\\u009f");
    assert_eq!(json_escape("\u{a0}"), "\u{a0}");
}

#[test]
fn rows_have_eight_fields_in_order() {
    let mut x = trade("A\"B");
    x.p = "1\n2".to_string();
    x.a = -7;
    x.m = false;
    assert_eq!(
        to_json_line(&x),
        "{\"s\":\"A\\\"B\",\"a\":-7,\"p\":\"1\\n2\",\"q\":\"100\",\"f\":100,\"l\":105,\"T\":123456785,\"m\":false}"
    );
    assert!(!to_json_line(&x).contains('\n'));
}

#[test]
fn fields_are_read_back() {
    let line = to_json_line(&trade("BTCUSDT"));
    assert_eq!(extract_json_string(&line, "s"), Some("BTCUSDT".to_string()));
    assert_eq!(extract_json_i64(&line, "a"), Some(5933014));
    assert_eq!(extract_json_string(&line, "p"), Some("0.001".to_string()));
    assert_eq!(extract_json_i64(&line, "T"), Some(123456785));
    assert_eq!(extract_json_string(&line, "x"), None);
    assert_eq!(extract_json_i64(&line, "x"), None);
    assert_eq!(extract_json_i64(&line, "m"), None);
}

#[test]
fn trade_id_is_read_back_behind_any_symbol() {
    for s in ["", "a", "\"a", "\"a\":1,", "\",\"a\":9,\"", "\\", "\\\"a\":3"] {
        for a in [0, 1, -1, i64::MAX, i64::MIN] {
            let mut x = trade(s);
            x.a = a;
            assert_eq!(extract_json_i64(&to_json_line(&x), "a"), Some(a));
        }
    }
}

#[test]
fn symbol_is_read_back_only_if_plain() {
    for s in ["", "BTCUSDT", "a b", "\u{e9}"] {
        assert_eq!(extract_json_string(&to_json_line(&trade(s)), "s"), Some(s.to_string()));
    }
    for s in ["\"", "\\", "\n", "a\\\"", "\u{80}"] {
        assert_ne!(extract_json_string(&to_json_line(&trade(s)), "s"), Some(s.to_string()));
    }
}

#[test]
fn odd_lines_have_no_fields() {
    assert_eq!(extract_json_string("{\"s\":\"open", "s"), None);
    assert_eq!(extract_json_string("{\"s\": \"x\"}", "s"), None);
    assert_eq!(extract_json_i64("{\"a\":}", "a"), None);
    assert_eq!(extract_json_i64("{\"a\":1-2}", "a"), None);
    assert_eq!(extract_json_i64("{\"a\":-12}", "a"), Some(-12));
    assert_eq!(extract_json_i64("{\"a\":99999999999999999999}", "a"), None);
}

#[test]
fn different_trades_have_different_rows() {
    let texts = ["", "n", "\n", "\\n", "\\\\n", "\"", "\\\"", "\u{1}", "\\u0001"];
    for (i, x) in texts.iter().enumerate() {
        for (j, y) in texts.iter().enumerate() {
            assert_eq!(json_escape(x) == json_escape(y), i == j);
        }
    }
    let base = to_json_line(&trade("A"));
    let mut rows = vec![base, to_json_line(&trade("B"))];
    let mut x = trade("A");
    x.p = "0.001\",\"q\":\"100".to_string();
    x.q = String::new();
    rows.push(to_json_line(&x));
    let mut x = trade("A");
    x.f = 1001;
    rows.push(to_json_line(&x));
    let mut x = trade("A");
    x.m = false;
    rows.push(to_json_line(&x));
    for i in 0..rows.len() {
        for j in 0..i {
            assert_ne!(rows[i], rows[j]);
        }
    }
}
