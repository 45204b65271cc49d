//! Validation of market-data responses.
//!
//! The transport fetches `GET .../v5/market/tickers?category=linear&symbol=S`
//! and decodes the JSON body; the plain values land here.  This module
//! decides what the response means: which error it is, or the formatted
//! funding rate of the first listed ticker.
use vstd::prelude::*;
use crate::decimal::format_funding_rate;
use crate::decimal::formatted_rate;
use crate::decimal::is_decimal_string;

verus! {

/// Base of the tickers request, up to the symbol.
pub open spec fn tickers_url_of(symbol: Seq<char>) -> Seq<char> {
    "https://api.bybit.com/v5/market/tickers?category=linear&symbol="@ + symbol
}

/// The request URL for one symbol's tickers.
pub fn funding_rate_url(symbol: &str) -> (r: String)
    ensures
        r@ == tickers_url_of(symbol@),
{
    let mut out = String::from_str(
        "https://api.bybit.com/v5/market/tickers?category=linear&symbol=",
    );
    out.append(symbol);
    out
}

/// Why no funding rate came out of a fetch.
#[derive(Debug)]
pub enum MarketError {
    /// The response carried a non-success HTTP status.
    HttpError { status: u16 },
    /// The endpoint answered with a non-zero return code.
    ApiError { ret_code: i32, ret_msg: String },
    /// The endpoint answered success but listed no ticker.
    EmptyResultError,
    /// The listed funding rate is not a plain decimal numeral.
    ParseError,
}

/// A non-success HTTP status fails the fetch before the body is read.
pub fn check_status(status: u16) -> (r: Result<(), MarketError>)
    ensures
        r is Ok <==> 200 <= status < 300,
        !(200 <= status < 300) ==> (r matches Err(e) && e matches MarketError::HttpError {
            status: st,
        } && st == status),
{
    if 200 <= status && status < 300 {
        Ok(())
    } else {
        Err(MarketError::HttpError { status })
    }
}

/// The decoded fields of a tickers response: the return code and message,
/// and the funding rate of each listed ticker, in order.
pub struct TickerResponse {
    pub ret_code: i32,
    pub ret_msg: String,
    pub funding_rates: Vec<String>,
}

/// What a tickers response means.  A non-zero return code is the endpoint's
/// own error; an empty list has no rate to show; otherwise the first listed
/// funding rate is formatted for the alert, and a malformed rate string is
/// a parse failure.
pub fn evaluate_response(response: TickerResponse) -> (r: Result<String, MarketError>)
    ensures
        response.ret_code != 0 ==> (r matches Err(e) && e matches MarketError::ApiError {
            ret_code,
            ret_msg,
        } && ret_code == response.ret_code && ret_msg == response.ret_msg),
        response.ret_code == 0 && response.funding_rates@.len() == 0 ==> (r matches Err(e)
            && e is EmptyResultError),
        response.ret_code == 0 && response.funding_rates@.len() > 0 && is_decimal_string(
            response.funding_rates@[0]@,
        ) ==> (r matches Ok(out) && out@ == formatted_rate(response.funding_rates@[0]@)),
        response.ret_code == 0 && response.funding_rates@.len() > 0 && !is_decimal_string(
            response.funding_rates@[0]@,
        ) ==> (r matches Err(e) && e is ParseError),
{
    let TickerResponse { ret_code, ret_msg, funding_rates } = response;
    if ret_code != 0 {
        return Err(MarketError::ApiError { ret_code, ret_msg });
    }
    if funding_rates.len() == 0 {
        return Err(MarketError::EmptyResultError);
    }
    let first: &String = &funding_rates[0];
    match format_funding_rate(first.as_str()) {
        Some(out) => Ok(out),
        None => Err(MarketError::ParseError),
    }
}

} // verus!
