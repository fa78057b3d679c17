use noahroboros::config::{parse_list, parsed_or, value_or, BinanceConfig, DownloadConfig, LighterConfig};
use noahroboros::text::{lex_compare, parse_u32, push_decimal, push_signed_decimal, LexOrder};

fn strings(v: &[&str]) -> Vec<String> {
    v.iter().map(|s| s.to_string()).collect()
}

#[test]
fn list_default_symbols() {
    assert_eq!(parse_list("BTCUSDT,ETHUSDT,SOLUSDT"), strings(&["BTCUSDT", "ETHUSDT", "SOLUSDT"]));
}

#[test]
fn list_trims_and_drops_empty_entries() {
    assert_eq!(parse_list(" BTCUSDT, ,ETHUSDT ,"), strings(&["BTCUSDT", "ETHUSDT"]));
    assert_eq!(parse_list(""), Vec::<String>::new());
    assert_eq!(parse_list(",,,"), Vec::<String>::new());
    assert_eq!(parse_list("\u{3000}SOL\u{2003}\t,\nX"), strings(&["SOL", "X"]));
}

#[test]
fn list_entries_trim_like_std() {
    for s in ["  a b  ", "\u{85}x\u{a0}", "", "   ", "no-space", "\u{200b}y", "\u{feff}z\u{1680}"] {
        let expected: Vec<String> =
            if s.trim().is_empty() { vec![] } else { vec![s.trim().to_string()] };
        assert_eq!(parse_list(s), expected, "{s:?}");
    }
}

#[test]
fn parsed_or_reads_u32() {
    assert_eq!(parsed_or(Some("12".to_string()), 9), 12);
    assert_eq!(parsed_or(Some("+7".to_string()), 9), 7);
    assert_eq!(parsed_or(Some("007".to_string()), 9), 7);
    assert_eq!(parsed_or(Some("4294967295".to_string()), 9), 4294967295);
    assert_eq!(parsed_or(None, 9), 9);
}

#[test]
fn parsed_or_falls_back_on_bad_text() {
    for bad in ["-1", "", "+", " 5", "5 ", "4294967296", "1e3", "99999999999999999999", "٣"] {
        assert_eq!(parsed_or(Some(bad.to_string()), 9), 9, "{bad}");
        assert_eq!(parse_u32(bad), bad.parse::<u32>().ok(), "{bad}");
    }
}

#[test]
fn decimal_round_trip() {
    for n in [0u32, 1, 9, 10, 99, 100, 12345, 4294967295] {
        let mut s = String::new();
        push_decimal(&mut s, n as u64);
        assert_eq!(s, n.to_string());
        assert_eq!(parse_u32(&s), Some(n));
    }
}

#[test]
fn signed_decimal_matches_display() {
    for n in [0i64, -1, 7, -1500, i64::MAX, i64::MIN] {
        let mut s = String::from("x");
        push_signed_decimal(&mut s, n);
        assert_eq!(s, format!("x{n}"));
    }
}

#[test]
fn lexicographic_order_of_symbols() {
    let c = |s: &str| s.chars().collect::<Vec<char>>();
    assert_eq!(lex_compare(&c("BTC"), &c("ETH")), LexOrder::Before);
    assert_eq!(lex_compare(&c("ETH"), &c("ETH")), LexOrder::Same);
    assert_eq!(lex_compare(&c("ab"), &c("a")), LexOrder::After);
    assert_eq!(lex_compare(&c(""), &c("a")), LexOrder::Before);
    assert_eq!(lex_compare(&c("B"), &c("a")), LexOrder::Before);
}

#[test]
fn value_or_uses_default_when_unset() {
    assert_eq!(value_or(None, "data"), "data");
    assert_eq!(value_or(Some("x".to_string()), "data"), "x");
    assert_eq!(value_or(Some(String::new()), "data"), "");
}

#[test]
fn download_config_defaults() {
    let d = DownloadConfig::from_values(None, None, None);
    assert_eq!(d.symbols, strings(&["BTCUSDT", "ETHUSDT", "SOLUSDT"]));
    assert_eq!(d.interval, "1h");
    assert_eq!(d.months, 9);
}

#[test]
fn download_config_from_values() {
    let d = DownloadConfig::from_values(
        Some("ethusdt , BTCUSDT".to_string()),
        Some("5m".to_string()),
        Some("three".to_string()),
    );
    assert_eq!(d.symbols, strings(&["ethusdt", "BTCUSDT"]));
    assert_eq!(d.interval, "5m");
    assert_eq!(d.months, 9);
    let d = DownloadConfig::from_values(None, None, Some("6".to_string()));
    assert_eq!(d.months, 6);
}

#[test]
fn exchange_config_defaults() {
    let b = BinanceConfig::from_values(None, None, None);
    assert_eq!(b.api_key, "");
    assert_eq!(b.api_secret, "");
    assert_eq!(b.base_url, "https://api.binance.com");
    let b = BinanceConfig::from_values(Some("k".into()), Some("s".into()), Some("http://h".into()));
    assert_eq!((b.api_key.as_str(), b.api_secret.as_str(), b.base_url.as_str()), ("k", "s", "http://h"));
    let l = LighterConfig::from_values(None);
    assert_eq!(l.api_url, "https://mainnet.zklighter.elliot.ai/api/v1");
}

#[test]
fn list_round_trip() {
    for xs in [vec![], vec!["BTCUSDT"], vec!["BTCUSDT", "ETHUSDT", "SOLUSDT"], vec!["a b", "c"]] {
        let entries = strings(&xs);
        assert_eq!(parse_list(&entries.join(",")), entries);
    }
}
