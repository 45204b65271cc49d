use fr_notify::decimal::format_funding_rate;
use fr_notify::market::check_status;
use fr_notify::market::evaluate_response;
use fr_notify::market::funding_rate_url;
use fr_notify::market::MarketError;
use fr_notify::market::TickerResponse;

fn response(ret_code: i32, ret_msg: &str, rates: Vec<&str>) -> TickerResponse {
    TickerResponse {
        ret_code,
        ret_msg: ret_msg.to_string(),
        funding_rates: rates.into_iter().map(|r| r.to_string()).collect(),
    }
}

#[test]
fn formats_small_positive_rate() {
    assert_eq!(format_funding_rate("0.0001234").unwrap(), "0.0123");
}

#[test]
fn formats_negative_rate() {
    assert_eq!(format_funding_rate("-0.0005").unwrap(), "-0.0500");
}

#[test]
fn formats_exact_and_padded_rates() {
    assert_eq!(format_funding_rate("0.00005").unwrap(), "0.0050");
    assert_eq!(format_funding_rate("0.0001").unwrap(), "0.0100");
    assert_eq!(format_funding_rate("1").unwrap(), "100.0000");
    assert_eq!(format_funding_rate("0").unwrap(), "0.0000");
    assert_eq!(format_funding_rate(".5").unwrap(), "50.0000");
    assert_eq!(format_funding_rate("2.").unwrap(), "200.0000");
    assert_eq!(format_funding_rate("+0.0002").unwrap(), "0.0200");
}

#[test]
fn rounds_half_away_from_zero() {
    // 0.0000005 * 100 = 0.00005%: the dropped half rounds away from zero.
    assert_eq!(format_funding_rate("0.0000005").unwrap(), "0.0001");
    assert_eq!(format_funding_rate("-0.0000005").unwrap(), "-0.0001");
    // First dropped digit below five rounds toward zero.
    assert_eq!(format_funding_rate("0.0000004").unwrap(), "0.0000");
    assert_eq!(format_funding_rate("-0.00000004").unwrap(), "-0.0000");
}

#[test]
fn rounding_carries_through_digits() {
    // 9.99999% rounds up to 10.0000%.
    assert_eq!(format_funding_rate("0.0999999").unwrap(), "10.0000");
    assert_eq!(format_funding_rate("0.00099999").unwrap(), "0.1000");
}

#[test]
fn rejects_text_that_is_not_a_plain_numeral() {
    assert!(format_funding_rate("").is_none());
    assert!(format_funding_rate("abc").is_none());
    assert!(format_funding_rate("1e5").is_none());
    assert!(format_funding_rate("0.1.2").is_none());
    assert!(format_funding_rate(".").is_none());
    assert!(format_funding_rate("-").is_none());
    assert!(format_funding_rate("0.12a").is_none());
}

#[test]
fn non_zero_ret_code_is_api_error() {
    let r = evaluate_response(response(10001, "params error", vec!["0.0001"]));
    match r {
        Err(MarketError::ApiError { ret_code, ret_msg }) => {
            assert_eq!(ret_code, 10001);
            assert_eq!(ret_msg, "params error");
        },
        other => panic!("expected ApiError, got {:?}", other),
    }
}

#[test]
fn failed_symbol_does_not_stop_the_next_one() {
    // One symbol's fetch fails with an endpoint error; the next symbol's
    // response is still evaluated and succeeds.
    let bad = evaluate_response(response(10001, "params error", vec![]));
    assert!(matches!(bad, Err(MarketError::ApiError { .. })));
    let good = evaluate_response(response(0, "OK", vec!["0.0001234"]));
    assert_eq!(good.unwrap(), "0.0123");
}

#[test]
fn empty_result_list_is_empty_result_error() {
    let r = evaluate_response(response(0, "OK", vec![]));
    assert!(matches!(r, Err(MarketError::EmptyResultError)));
}

#[test]
fn malformed_rate_is_parse_error() {
    let r = evaluate_response(response(0, "OK", vec!["not-a-number"]));
    assert!(matches!(r, Err(MarketError::ParseError)));
}

#[test]
fn successful_response_uses_first_listed_rate() {
    let r = evaluate_response(response(0, "OK", vec!["-0.0005", "0.0001"]));
    assert_eq!(r.unwrap(), "-0.0500");
}

#[test]
fn status_codes_outside_success_range_fail() {
    assert!(check_status(200).is_ok());
    assert!(check_status(204).is_ok());
    assert!(check_status(299).is_ok());
    for status in [199u16, 301, 404, 500] {
        match check_status(status) {
            Err(MarketError::HttpError { status: st }) => assert_eq!(st, status),
            other => panic!("expected HttpError, got {:?}", other),
        }
    }
}

#[test]
fn url_embeds_the_symbol() {
    assert_eq!(
        funding_rate_url("BTCUSDT"),
        "https://api.bybit.com/v5/market/tickers?category=linear&symbol=BTCUSDT"
    );
}
