use chrono::{DateTime, Duration, TimeZone, Utc};
use price_providers::binance_api::{BinanceAPI, FetchError};
use price_providers::provider::{
    average_price, extend_series, window_average, BinancePriceProvider, MeanPrice, PriceError,
    PriceSeries, TIME_WINDOW,
};
use price_providers::time_window::TimeWindow;
use std::cell::RefCell;
use std::rc::Rc;

const SYMBOL: &str = "BTCUSDC";

const SINGLE_PRICE_RESPONSE: &str = r#"[{"a": 26129,"p": "0.01633102","q": "4.70443515","f": 27781,"l": 27781,"T": 1498793709153,"m": true,"M": true }]"#;
const MULTIPLE_PRICES_RESPONSE: &str = r#"[{"a": 26129,"p": "1.0","q": "4.70443515","f": 27781,"l": 27781,"T": 1498793709153,"m": true,"M": true },{"a": 26129,"p": "2.5","q": "4.70443515","f": 27781,"l": 27781,"T": 1498793709153,"m": true,"M": true },{"a": 26129,"p": "3.5","q": "4.70443515","f": 27781,"l": 27781,"T": 1498793709153,"m": true,"M": true }]"#;
const MULTIPLE_PRICES_RESPONSE_2: &str = r#"[{"a": 26129,"p": "1.0","q": "4.70443515","f": 27781,"l": 27781,"T": 1498793709153,"m": true,"M": true },{"a": 26129,"p": "2.0","q": "4.70443515","f": 27781,"l": 27781,"T": 1498793709153,"m": true,"M": true }]"#;
const MISSING_PRICE_RESPONSE: &str = r#"[{"a": 26129,"q": "4.70443515","f": 27781,"l": 27781,"T": 1498793709153,"m": true,"M": true }]"#;
const INVALID_PRICE_RESPONSE: &str = r#"[{"a": 26129,"p": "notafloat","q": "4.70443515","f": 27781,"l": 27781,"T": 1498793709153,"m": true,"M": true }]"#;

// Default time values spanning just one time window
fn start_time() -> DateTime<Utc> {
    Utc.with_ymd_and_hms(2025, 1, 27, 14, 0, 0).unwrap()
}

fn time_window() -> Duration {
    Duration::milliseconds(TIME_WINDOW)
}

fn end_time() -> DateTime<Utc> {
    start_time() + time_window() - Duration::seconds(1)
}

/// One request as the source saw it.
#[derive(Clone, Debug, PartialEq)]
struct Request {
    symbol: String,
    from_id: Option<i64>,
    start_time: Option<i64>,
    end_time: Option<i64>,
    limit: Option<i64>,
}

/// What the source expects of a request, and the reply it then gives.
struct Expectation {
    symbol: Option<&'static str>,
    start_time: Option<Option<i64>>,
    end_time: Option<Option<i64>>,
    times: Option<usize>,
    reply: Result<&'static str, &'static str>,
    calls: usize,
}

impl Expectation {
    fn returning(reply: Result<&'static str, &'static str>) -> Expectation {
        Expectation { symbol: None, start_time: None, end_time: None, times: None, reply, calls: 0 }
    }

    fn times(mut self, times: usize) -> Expectation {
        self.times = Some(times);
        self
    }

    fn with_symbol(mut self, symbol: &'static str) -> Expectation {
        self.symbol = Some(symbol);
        self
    }

    fn with_range(mut self, start_time: Option<i64>, end_time: Option<i64>) -> Expectation {
        self.start_time = Some(start_time);
        self.end_time = Some(end_time);
        self
    }

    fn matches(&self, request: &Request) -> bool {
        self.symbol.map_or(true, |symbol| symbol == request.symbol)
            && self.start_time.map_or(true, |start| start == request.start_time)
            && self.end_time.map_or(true, |end| end == request.end_time)
            && self.times.map_or(true, |times| self.calls < times)
    }
}

/// The state of a source that answers by expectations, taken in order.
struct Script {
    expectations: Vec<Expectation>,
    requests: Vec<Request>,
}

impl Script {
    fn verify(&self) {
        for expectation in &self.expectations {
            if let Some(times) = expectation.times {
                assert_eq!(expectation.calls, times);
            }
        }
    }
}

struct MockBinanceAPI {
    script: Rc<RefCell<Script>>,
}

impl MockBinanceAPI {
    fn new(expectations: Vec<Expectation>) -> (MockBinanceAPI, Rc<RefCell<Script>>) {
        let script = Rc::new(RefCell::new(Script { expectations, requests: Vec::new() }));
        (MockBinanceAPI { script: script.clone() }, script)
    }
}

impl BinanceAPI for MockBinanceAPI {
    fn agg_trades(
        &self,
        symbol: &str,
        from_id: Option<i64>,
        start_time: Option<i64>,
        end_time: Option<i64>,
        limit: Option<i64>,
    ) -> Result<String, FetchError> {
        let request =
            Request { symbol: symbol.to_string(), from_id, start_time, end_time, limit };
        let mut script = self.script.borrow_mut();
        script.requests.push(request.clone());
        for expectation in script.expectations.iter_mut() {
            if expectation.matches(&request) {
                expectation.calls += 1;
                return match expectation.reply {
                    Ok(text) => Ok(text.to_string()),
                    Err(message) => Err(FetchError { message: message.to_string() }),
                };
            }
        }
        panic!("no expectation for {:?}", request);
    }
}

/// The mean as a floating-point number.
fn as_float(price: &MeanPrice) -> f64 {
    let total: f64 = price.total().to_text().parse().unwrap();
    total / price.count() as f64
}

fn assert_float_absolute_eq(left: f64, right: f64) {
    assert!((left - right).abs() < 1e-9, "{} is not {}", left, right);
}

fn ok_response(text: &str) -> Result<String, FetchError> {
    Ok(text.to_string())
}

#[test]
fn test_can_create_a_binance_price_provider() {
    let (mock_api, _script) = MockBinanceAPI::new(Vec::new());
    let _binance_provider = BinancePriceProvider::new(Box::new(mock_api));
}

#[test]
fn test_binance_provider_returns_empty_when_no_prices() {
    let (mock_api, script) = MockBinanceAPI::new(vec![Expectation::returning(Ok("[]"))
        .times(1)
        .with_symbol(SYMBOL)]);

    let binance_provider = BinancePriceProvider::new(Box::new(mock_api));
    let prices = binance_provider.prices(
        SYMBOL,
        start_time().timestamp_millis(),
        end_time().timestamp_millis(),
    );

    assert!(prices.is_ok());
    assert!(prices.unwrap().is_empty());
    script.borrow().verify();
}

#[test]
fn test_binance_provider_returns_price_if_just_one_price() {
    let (mock_api, script) =
        MockBinanceAPI::new(vec![Expectation::returning(Ok(SINGLE_PRICE_RESPONSE))
            .times(1)
            .with_symbol(SYMBOL)]);

    let binance_provider = BinancePriceProvider::new(Box::new(mock_api));
    let prices = binance_provider
        .prices(SYMBOL, start_time().timestamp_millis(), end_time().timestamp_millis())
        .unwrap();

    assert_eq!(prices.len(), 1);
    assert_float_absolute_eq(as_float(&prices[0].price), 0.01633102);
    assert_eq!(as_float(&prices[0].price), 0.01633102);
    script.borrow().verify();
}

#[test]
fn test_binance_provider_returns_error_on_api_error() {
    let (mock_api, script) = MockBinanceAPI::new(vec![Expectation::returning(Err("some error"))]);

    let binance_provider = BinancePriceProvider::new(Box::new(mock_api));
    let prices = binance_provider.prices(
        SYMBOL,
        start_time().timestamp_millis(),
        end_time().timestamp_millis(),
    );
    assert!(prices.is_err());
    match prices {
        Err(PriceError::Fetch(error)) => assert_eq!(error.message, "some error"),
        other => panic!("not a fetch error: {:?}", other),
    }
    assert_eq!(script.borrow().requests.len(), 1);
}

#[test]
fn test_binance_provider_returns_error_on_missing_price_data() {
    let (mock_api, _script) =
        MockBinanceAPI::new(vec![Expectation::returning(Ok(MISSING_PRICE_RESPONSE))]);

    let binance_provider = BinancePriceProvider::new(Box::new(mock_api));
    let prices = binance_provider.prices(
        SYMBOL,
        start_time().timestamp_millis(),
        end_time().timestamp_millis(),
    );
    assert!(prices.is_err());
    assert!(matches!(prices, Err(PriceError::Deserialization)));
}

#[test]
fn test_binance_provider_returns_error_on_non_numeric_price_data() {
    let (mock_api, _script) =
        MockBinanceAPI::new(vec![Expectation::returning(Ok(INVALID_PRICE_RESPONSE))]);

    let binance_provider = BinancePriceProvider::new(Box::new(mock_api));
    let prices = binance_provider.prices(
        SYMBOL,
        start_time().timestamp_millis(),
        end_time().timestamp_millis(),
    );
    assert!(prices.is_err());
    match prices {
        Err(PriceError::PriceParse(text)) => assert_eq!(text, "notafloat"),
        other => panic!("not a price error: {:?}", other),
    }
}

#[test]
fn test_binance_provider_returns_average_price_from_single_time_window() {
    let (mock_api, script) =
        MockBinanceAPI::new(vec![Expectation::returning(Ok(MULTIPLE_PRICES_RESPONSE))
            .times(1)
            .with_symbol(SYMBOL)
            .with_range(
                Some(start_time().timestamp_millis()),
                Some(end_time().timestamp_millis()),
            )]);

    let binance_provider = BinancePriceProvider::new(Box::new(mock_api));
    let prices = binance_provider
        .prices(SYMBOL, start_time().timestamp_millis(), end_time().timestamp_millis())
        .unwrap();

    assert_eq!(prices.len(), 1);
    assert_float_absolute_eq(as_float(&prices[0].price), 2.333333333);
    assert_eq!(prices[0].timestamp, start_time().timestamp_millis());
    script.borrow().verify();
}

#[test]
fn test_binance_provider_returns_average_prices_from_multiple_time_windows() {
    // ensure to capture just 2 windows
    let first_window_end = start_time() + time_window();
    let end_time = first_window_end + Duration::seconds(1);

    let (mock_api, script) = MockBinanceAPI::new(vec![
        // call #1
        Expectation::returning(Ok(MULTIPLE_PRICES_RESPONSE))
            .times(1)
            .with_symbol(SYMBOL)
            .with_range(
                Some(start_time().timestamp_millis()),
                Some(first_window_end.timestamp_millis() - 1),
            ),
        // call #2
        Expectation::returning(Ok(MULTIPLE_PRICES_RESPONSE_2))
            .times(1)
            .with_symbol(SYMBOL)
            .with_range(
                Some(first_window_end.timestamp_millis()),
                Some(end_time.timestamp_millis()),
            ),
    ]);

    let binance_provider = BinancePriceProvider::new(Box::new(mock_api));
    let prices = binance_provider
        .prices(SYMBOL, start_time().timestamp_millis(), end_time.timestamp_millis())
        .unwrap();

    assert_eq!(prices.len(), 2);
    assert_float_absolute_eq(as_float(&prices[0].price), 2.333333333);
    assert_eq!(prices[0].timestamp, start_time().timestamp_millis());
    assert_float_absolute_eq(as_float(&prices[1].price), 1.5);
    assert_eq!(prices[1].timestamp, first_window_end.timestamp_millis());
    script.borrow().verify();
}

#[test]
fn test_binance_provider_skips_time_windows_with_no_prices() {
    // capture 3 windows
    let end_time = start_time() + time_window() * 3;

    let (mock_api, script) = MockBinanceAPI::new(vec![
        // call #1
        Expectation::returning(Ok(MULTIPLE_PRICES_RESPONSE)).times(1),
        // call #2
        Expectation::returning(Ok("[]")).times(1),
        // call #3
        Expectation::returning(Ok(MULTIPLE_PRICES_RESPONSE_2)).times(1),
    ]);

    let binance_provider = BinancePriceProvider::new(Box::new(mock_api));
    let prices = binance_provider
        .prices(SYMBOL, start_time().timestamp_millis(), end_time.timestamp_millis())
        .unwrap();

    assert_eq!(prices.len(), 2);
    assert_float_absolute_eq(as_float(&prices[0].price), 2.333333333);
    assert_eq!(prices[0].timestamp, start_time().timestamp_millis());
    assert_float_absolute_eq(as_float(&prices[1].price), 1.5);
    assert_eq!(prices[1].timestamp, (start_time() + time_window() * 2).timestamp_millis());
    script.borrow().verify();
}

#[test]
fn test_binance_provider_returns_prices_for_given_symbol() {
    const NEW_SYMBOL: &str = "ETHUSDT";

    let (mock_api, script) =
        MockBinanceAPI::new(vec![Expectation::returning(Ok(SINGLE_PRICE_RESPONSE))
            .times(1)
            .with_symbol(NEW_SYMBOL)]);

    let binance_provider = BinancePriceProvider::new(Box::new(mock_api));
    let _ = binance_provider.prices(
        NEW_SYMBOL,
        start_time().timestamp_millis(),
        end_time().timestamp_millis(),
    );
    script.borrow().verify();
}

#[test]
fn requests_carry_the_window_and_leave_cursor_and_limit_out() {
    let (mock_api, script) = MockBinanceAPI::new(vec![Expectation::returning(Ok("[]"))]);
    let binance_provider = BinancePriceProvider::new(Box::new(mock_api));
    let start = start_time().timestamp_millis();
    let prices = binance_provider.prices(SYMBOL, start, start + 2 * TIME_WINDOW + 5).unwrap();
    assert!(prices.is_empty());
    let expected: Vec<Request> = vec![
        (start, start + TIME_WINDOW - 1),
        (start + TIME_WINDOW, start + 2 * TIME_WINDOW - 1),
        (start + 2 * TIME_WINDOW, start + 2 * TIME_WINDOW + 5),
    ]
    .into_iter()
    .map(|(from, to)| Request {
        symbol: SYMBOL.to_string(),
        from_id: None,
        start_time: Some(from),
        end_time: Some(to),
        limit: None,
    })
    .collect();
    assert_eq!(script.borrow().requests, expected);
}

#[test]
fn a_range_that_ends_before_it_starts_asks_for_one_window() {
    let (mock_api, script) =
        MockBinanceAPI::new(vec![Expectation::returning(Ok(SINGLE_PRICE_RESPONSE))]);
    let binance_provider = BinancePriceProvider::new(Box::new(mock_api));
    let prices = binance_provider.prices(SYMBOL, 1_000_000, 400_000).unwrap();
    assert_eq!(prices.len(), 1);
    assert_eq!(prices[0].timestamp, 1_000_000);
    let requests = script.borrow().requests.clone();
    assert_eq!(requests.len(), 1);
    assert_eq!(requests[0].start_time, Some(1_000_000));
    assert_eq!(requests[0].end_time, Some(400_000));
}

#[test]
fn a_failed_fetch_stops_the_series_at_once() {
    let (mock_api, script) = MockBinanceAPI::new(vec![
        Expectation::returning(Ok(MULTIPLE_PRICES_RESPONSE)).times(1),
        Expectation::returning(Err("500 Internal Server Error")).times(1),
        Expectation::returning(Ok(MULTIPLE_PRICES_RESPONSE_2)).times(0),
    ]);
    let binance_provider = BinancePriceProvider::new(Box::new(mock_api));
    let start = start_time().timestamp_millis();
    let prices = binance_provider.prices(SYMBOL, start, start + 3 * TIME_WINDOW);
    match prices {
        Err(PriceError::Fetch(error)) => assert_eq!(error.message, "500 Internal Server Error"),
        other => panic!("not a fetch error: {:?}", other),
    }
    assert_eq!(script.borrow().requests.len(), 2);
    script.borrow().verify();
}

#[test]
fn an_unreadable_price_in_a_later_window_fails_the_whole_call() {
    let (mock_api, script) = MockBinanceAPI::new(vec![
        Expectation::returning(Ok(MULTIPLE_PRICES_RESPONSE)).times(1),
        Expectation::returning(Ok(INVALID_PRICE_RESPONSE)).times(1),
    ]);
    let binance_provider = BinancePriceProvider::new(Box::new(mock_api));
    let start = start_time().timestamp_millis();
    let prices = binance_provider.prices(SYMBOL, start, start + 5 * TIME_WINDOW);
    assert!(matches!(prices, Err(PriceError::PriceParse(_))));
    assert_eq!(script.borrow().requests.len(), 2);
}

#[test]
fn timestamps_of_a_series_grow() {
    let (mock_api, _script) = MockBinanceAPI::new(vec![
        Expectation::returning(Ok("[]")).times(2),
        Expectation::returning(Ok(SINGLE_PRICE_RESPONSE)),
    ]);
    let binance_provider = BinancePriceProvider::new(Box::new(mock_api));
    let start = start_time().timestamp_millis();
    let prices = binance_provider.prices(SYMBOL, start, start + 6 * TIME_WINDOW + 1).unwrap();
    assert_eq!(prices.len(), 5);
    for (k, point) in prices.iter().enumerate() {
        assert_eq!(point.timestamp, start + (k as i64 + 2) * TIME_WINDOW);
    }
}

#[test]
fn window_average_of_an_empty_list_is_nothing() {
    let average = window_average(ok_response("[]")).unwrap();
    assert!(average.is_none());
}

#[test]
fn window_average_keeps_total_and_count() {
    let average = window_average(ok_response(MULTIPLE_PRICES_RESPONSE)).unwrap().unwrap();
    assert_eq!(average.count(), 3);
    assert_eq!(average.total().scale(), 1);
    let digits: u64 = average.total().digits().iter().fold(0, |all, d| all * 10 + *d as u64);
    assert_eq!(digits, 70);
    assert!(!average.total().is_negative());
    assert_float_absolute_eq(as_float(&average), 2.333333333);
}

#[test]
fn the_mean_is_cut_off_behind_the_digits_asked_for() {
    let average = window_average(ok_response(MULTIPLE_PRICES_RESPONSE)).unwrap().unwrap();
    assert_eq!(average.to_decimal(9).to_text(), "2.333333333");
    assert_eq!(average.to_decimal(0).to_text(), "2.3");
    let single = window_average(ok_response(SINGLE_PRICE_RESPONSE)).unwrap().unwrap();
    assert_eq!(single.to_decimal(0).to_text(), "0.01633102");
    assert_eq!(single.to_decimal(10).to_text(), "0.0163310200");
    let two = window_average(ok_response(MULTIPLE_PRICES_RESPONSE_2)).unwrap().unwrap();
    assert_eq!(two.to_decimal(1).to_text(), "1.5");
}

#[test]
fn window_average_mixes_scales_and_signs() {
    let text = r#"[{"a":1,"p":"-1.25","q":"1","f":1,"l":1,"T":1,"m":false,"M":true},{"a":2,"p":"3","q":"1","f":2,"l":2,"T":2,"m":false,"M":true},{"a":3,"p":".5","q":"1","f":3,"l":3,"T":3,"m":false,"M":true},{"a":4,"p":"-4.125","q":"1","f":4,"l":4,"T":4,"m":false,"M":true}]"#;
    let average = window_average(ok_response(text)).unwrap().unwrap();
    assert_eq!(average.count(), 4);
    assert_eq!(average.total().scale(), 3);
    assert!(average.total().is_negative());
    let digits: u64 = average.total().digits().iter().fold(0, |all, d| all * 10 + *d as u64);
    assert_eq!(digits, 1875);
    assert_eq!(as_float(&average), -0.46875);
}

#[test]
fn window_average_passes_the_fetch_error_on() {
    let average = window_average(Err(FetchError { message: "timed out".to_string() }));
    match average {
        Err(PriceError::Fetch(error)) => assert_eq!(error.message, "timed out"),
        other => panic!("not a fetch error: {:?}", other),
    }
}

#[test]
fn window_average_refuses_what_is_no_list_of_trades() {
    for text in ["", "{}", "[1]", "[{}]", "not json", "[{\"a\": 1}", "null"] {
        assert!(matches!(
            window_average(ok_response(text)),
            Err(PriceError::Deserialization)
        ));
    }
}

#[test]
fn window_average_names_the_first_unreadable_price() {
    let text = r#"[{"a":1,"p":"1.5","q":"1","f":1,"l":1,"T":1,"m":false,"M":true},{"a":2,"p":"1e3","q":"1","f":2,"l":2,"T":2,"m":false,"M":true},{"a":3,"p":"abc","q":"1","f":3,"l":3,"T":3,"m":false,"M":true}]"#;
    match window_average(ok_response(text)) {
        Err(PriceError::PriceParse(price)) => assert_eq!(price, "1e3"),
        other => panic!("not a price error: {:?}", other),
    }
}

#[test]
fn average_price_of_no_trades_is_nothing() {
    assert!(average_price(&Vec::new()).unwrap().is_none());
}

#[test]
fn fetch_avg_price_for_window_asks_for_the_window() {
    let (mock_api, script) =
        MockBinanceAPI::new(vec![Expectation::returning(Ok(MULTIPLE_PRICES_RESPONSE_2))]);
    let binance_provider = BinancePriceProvider::new(Box::new(mock_api));
    let window = TimeWindow { start: 100, end: 500 };
    let average = binance_provider.fetch_avg_price_for_window("ETHUSDT", &window).unwrap().unwrap();
    assert_eq!(as_float(&average), 1.5);
    assert_eq!(
        script.borrow().requests,
        vec![Request {
            symbol: "ETHUSDT".to_string(),
            from_id: None,
            start_time: Some(100),
            end_time: Some(500),
            limit: None,
        }]
    );
}

#[test]
fn extend_series_adds_a_point_at_the_start_of_the_window() {
    let mut series: PriceSeries = Vec::new();
    let first = TimeWindow { start: 120_000, end: 179_999 };
    let average = window_average(ok_response(MULTIPLE_PRICES_RESPONSE));
    assert!(extend_series(&mut series, &first, average).is_ok());
    assert_eq!(series.len(), 1);
    assert_eq!(series[0].timestamp, 120_000);
    assert_eq!(series[0].price.count(), 3);
    assert_eq!(series[0].price.total().to_text(), "7.0");

    let second = TimeWindow { start: 180_000, end: 200_000 };
    let average = window_average(ok_response(MULTIPLE_PRICES_RESPONSE_2));
    assert!(extend_series(&mut series, &second, average).is_ok());
    assert_eq!(series.len(), 2);
    assert_eq!(series[0].timestamp, 120_000);
    assert_eq!(series[0].price.total().to_text(), "7.0");
    assert_eq!(series[1].timestamp, 180_000);
    assert_eq!(series[1].price.count(), 2);
    assert_eq!(series[1].price.total().to_text(), "3.0");
}

#[test]
fn extend_series_adds_nothing_for_a_window_without_trades() {
    let mut series: PriceSeries = Vec::new();
    let window = TimeWindow { start: 0, end: 59_999 };
    assert!(extend_series(&mut series, &window, Ok(None)).is_ok());
    assert!(series.is_empty());

    let average = window_average(ok_response(SINGLE_PRICE_RESPONSE));
    assert!(extend_series(&mut series, &window, average).is_ok());
    let next = TimeWindow { start: 60_000, end: 119_999 };
    assert!(extend_series(&mut series, &next, window_average(ok_response("[]"))).is_ok());
    assert_eq!(series.len(), 1);
    assert_eq!(series[0].timestamp, 0);
}

#[test]
fn extend_series_hands_a_failure_back_and_keeps_the_series() {
    let mut series: PriceSeries = Vec::new();
    let window = TimeWindow { start: 0, end: 59_999 };
    let average = window_average(ok_response(SINGLE_PRICE_RESPONSE));
    assert!(extend_series(&mut series, &window, average).is_ok());

    let next = TimeWindow { start: 60_000, end: 119_999 };
    let failed = Err(PriceError::Fetch(FetchError { message: "some error".to_string() }));
    match extend_series(&mut series, &next, failed) {
        Err(PriceError::Fetch(error)) => assert_eq!(error.message, "some error"),
        other => panic!("not a fetch error: {:?}", other),
    }
    assert!(matches!(
        extend_series(&mut series, &next, Err(PriceError::Deserialization)),
        Err(PriceError::Deserialization)
    ));
    match extend_series(&mut series, &next, Err(PriceError::PriceParse("1e3".to_string()))) {
        Err(PriceError::PriceParse(text)) => assert_eq!(text, "1e3"),
        other => panic!("not a price error: {:?}", other),
    }
    assert_eq!(series.len(), 1);
    assert_eq!(series[0].timestamp, 0);
    assert_eq!(series[0].price.total().to_text(), "0.01633102");
}
