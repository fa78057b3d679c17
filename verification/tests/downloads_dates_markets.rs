use noahroboros::dates::{default_start_ms, parse_date_ms};
use noahroboros::market::download::{
    base_url_of, kept_klines, kline_url, open_time_secs, KlineHead, KlinePager, PageStep, KLINE_LIMIT,
};

fn head(fields: usize, open_ms: Option<i64>) -> KlineHead {
    KlineHead { fields, open_ms }
}
use noahroboros::market::CsvLoader;
use noahroboros::trading::{BinanceExchange, LighterExchange};
use noahroboros::config::{BinanceConfig, LighterConfig};

#[test]
fn kline_url_text() {
    let url = kline_url("https://api.binance.com", "BTCUSDT", "1h", 1756684800000, -5);
    assert_eq!(
        url,
        "https://api.binance.com/api/v3/klines?symbol=BTCUSDT&interval=1h&startTime=1756684800000&endTime=-5&limit=1000"
    );
}

#[test]
fn base_url_loses_trailing_slashes() {
    assert_eq!(base_url_of("https://api.binance.com///"), "https://api.binance.com");
    assert_eq!(base_url_of("http://h/x"), "http://h/x");
    assert_eq!(base_url_of("//"), "");
}

#[test]
fn kline_fields_and_times() {
    assert_eq!(
        kept_klines(&vec![head(6, Some(1)), head(12, Some(9)), head(5, Some(2)), head(6, Some(10)), head(6, None)], 10),
        vec![true, true, false, false, true]
    );
    assert_eq!(open_time_secs(Some(1700000000123)), 1700000000);
    assert_eq!(open_time_secs(Some(-1500)), -1);
    assert_eq!(open_time_secs(Some(999)), 0);
    assert_eq!(open_time_secs(None), 0);
}

#[test]
fn pager_walks_pages_until_empty() {
    let mut p = KlinePager::new(0, 10_000);
    assert_eq!(p.next_request(), Some(0));
    let full: Vec<KlineHead> = (0..KLINE_LIMIT as i64).map(|i| head(12, Some(i * 3))).collect();
    assert_eq!(p.on_page(&full), PageStep::Next { pause: true });
    assert_eq!(p.next_request(), Some(2_998));
    assert_eq!(p.rows(), 1000);
    assert_eq!(p.on_page(&vec![head(12, Some(4_000)), head(3, Some(4_500)), head(6, Some(5_000))]), PageStep::Next { pause: false });
    assert_eq!(p.rows(), 1002);
    assert_eq!(p.next_request(), Some(5_001));
    assert_eq!(p.on_page(&vec![]), PageStep::Done);
    assert_eq!(p.next_request(), None);
    assert_eq!(p.rows(), 1002);
}

#[test]
fn end_time_is_exclusive() {
    let mut p = KlinePager::new(0, 100);
    let page = vec![head(6, Some(98)), head(6, Some(99)), head(6, Some(100)), head(6, Some(160))];
    assert_eq!(kept_klines(&page, p.end_ms()), vec![true, true, false, false]);
    assert_eq!(p.on_page(&page), PageStep::Next { pause: false });
    assert_eq!(p.rows(), 2);
    assert_eq!(p.next_request(), None);
}

#[test]
fn pager_stops_at_end_time() {
    let mut p = KlinePager::new(5, 5);
    assert_eq!(p.next_request(), None);
    let mut p = KlinePager::new(0, 100);
    assert_eq!(p.on_page(&vec![head(6, None)]), PageStep::Next { pause: false });
    assert_eq!(p.rows(), 1);
    assert_eq!(p.next_request(), None);
    assert_eq!(p.end_ms(), 100);
}

#[test]
fn dates_to_millis() {
    assert_eq!(parse_date_ms("2025-09-01").ok(), Some(1756684800000));
    assert_eq!(parse_date_ms("1970-01-01").ok(), Some(0));
    assert_eq!(parse_date_ms("1969-12-31").ok(), Some(-86400000));
    assert_eq!(parse_date_ms("2024-02-29").ok(), Some(1709164800000));
}

#[test]
fn bad_dates_are_refused() {
    for bad in ["2023-02-29", "2025/09/01", "yesterday", "", "2025-13-01"] {
        let e = parse_date_ms(bad).err().expect(bad);
        assert_eq!(e.input, bad);
    }
}

#[test]
fn default_start_is_months_of_thirty_days_back() {
    assert_eq!(default_start_ms(1_000_000_000_000, 9), 1_000_000_000_000 - 9 * 2_592_000_000);
    assert_eq!(default_start_ms(0, 0), 0);
    assert_eq!(default_start_ms(0, 1), -2_592_000_000);
}

#[test]
fn candle_files_and_symbols() {
    assert!(CsvLoader::is_candle_file(Some("csv")));
    assert!(!CsvLoader::is_candle_file(Some("CSV")));
    assert!(!CsvLoader::is_candle_file(Some("csvx")));
    assert!(!CsvLoader::is_candle_file(None));
    assert_eq!(CsvLoader::symbol_for_file(Some("btcusdt")), "BTCUSDT");
    assert_eq!(CsvLoader::symbol_for_file(Some("EthUsdt")), "ETHUSDT");
    assert_eq!(CsvLoader::symbol_for_file(None), "UNKNOWN");
    assert_eq!(CsvLoader::row_symbol(String::new(), &"SOLUSDT".to_string()), "SOLUSDT");
    assert_eq!(CsvLoader::row_symbol("ETH".to_string(), &"SOLUSDT".to_string()), "ETH");
}

#[test]
fn exchanges_from_config() {
    let b = BinanceExchange::from_config(&BinanceConfig::from_values(
        Some("key".into()),
        Some("secret".into()),
        None,
    ));
    assert_eq!(b.api_key, "key");
    assert_eq!(b.api_secret, "secret");
    assert_eq!(b.base_url, "https://api.binance.com");
    assert_eq!(b.name(), "binance");
    let l = LighterExchange::from_config(&LighterConfig::from_values(Some("http://l".into())));
    assert_eq!(l.api_url, "http://l");
    assert_eq!(l.name(), "lighter");
}
