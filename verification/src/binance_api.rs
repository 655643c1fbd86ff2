//! The aggregate-trades interface of the exchange, and the shape of what it
//! answers.

use crate::json::{find_member, json_document, member, parse_json, Json};
use vstd::prelude::*;

verus! {

/// Why a request for trades brought no answer: the transport failed, or the
/// exchange answered with a status other than success.
#[derive(Debug)]
pub struct FetchError {
    pub message: String,
}

/// A source of aggregate trades.
pub trait BinanceAPI {
    /// GET /api/v3/aggTrades
    ///
    /// Parameters
    /// symbol      STRING  YES
    /// fromId      LONG    NO  ID to get aggregate trades from INCLUSIVE.
    /// startTime   LONG    NO  Timestamp in ms to get aggregate trades from INCLUSIVE.
    /// endTime     LONG    NO  Timestamp in ms to get aggregate trades until INCLUSIVE.
    /// limit       INT     NO  Default 500; max 1000.
    ///
    /// Expected Response:
    /// [
    ///   {
    ///     "a": 26129,         // Aggregate tradeId
    ///     "p": "0.01633102",  // Price
    ///     "q": "4.70443515",  // Quantity
    ///     "f": 27781,         // First tradeId
    ///     "l": 27781,         // Last tradeId
    ///     "T": 1498793709153, // Timestamp
    ///     "m": true,          // Was the buyer the maker?
    ///     "M": true           // Was the trade the best price match?
    ///   }
    /// ]
    fn agg_trades(
        &self,
        symbol: &str,
        from_id: Option<i64>,
        start_time: Option<i64>,
        end_time: Option<i64>,
        limit: Option<i64>,
    ) -> Result<String, FetchError>;
}

/// One aggregate trade as the exchange reports it.
#[derive(Debug)]
#[allow(non_snake_case)]
pub struct AggTradesResponseItem {
    pub a: i64,
    pub p: String,
    pub q: String,
    pub f: i64,
    pub l: i64,
    pub T: i64,
    pub m: bool,
    pub M: bool,
}

/// What an aggregate trade holds.
#[allow(non_snake_case)]
pub struct TradeRecord {
    pub a: i64,
    pub p: Seq<char>,
    pub q: Seq<char>,
    pub f: i64,
    pub l: i64,
    pub T: i64,
    pub m: bool,
    pub M: bool,
}

impl View for AggTradesResponseItem {
    type V = TradeRecord;

    open spec fn view(&self) -> TradeRecord {
        TradeRecord {
            a: self.a,
            p: self.p@,
            q: self.q@,
            f: self.f,
            l: self.l,
            T: self.T,
            m: self.m,
            M: self.M,
        }
    }
}

/// What each trade of a list holds.
pub open spec fn records(trades: Seq<AggTradesResponseItem>) -> Seq<TradeRecord> {
    Seq::new(trades.len(), |k: int| trades[k]@)
}

/// The integer under the key `name`, where the member is one.
pub open spec fn integer_member(members: Seq<(String, Json)>, name: Seq<char>) -> Option<i64> {
    match member(members, name) {
        Some(Json::Number(Some(number))) => Some(number),
        _ => None,
    }
}

/// The text under the key `name`, where the member is one.
pub open spec fn text_member(members: Seq<(String, Json)>, name: Seq<char>) -> Option<Seq<char>> {
    match member(members, name) {
        Some(Json::Text(text)) => Some(text@),
        _ => None,
    }
}

/// The truth value under the key `name`, where the member is one.
pub open spec fn flag_member(members: Seq<(String, Json)>, name: Seq<char>) -> Option<bool> {
    match member(members, name) {
        Some(Json::Bool(flag)) => Some(flag),
        _ => None,
    }
}

/// Whether the members of an object are those of a trade: each of the eight
/// keys is there with a value of its type. Other keys do not matter.
pub open spec fn are_trade_members(members: Seq<(String, Json)>) -> bool {
    &&& integer_member(members, "a"@) is Some
    &&& text_member(members, "p"@) is Some
    &&& text_member(members, "q"@) is Some
    &&& integer_member(members, "f"@) is Some
    &&& integer_member(members, "l"@) is Some
    &&& integer_member(members, "T"@) is Some
    &&& flag_member(members, "m"@) is Some
    &&& flag_member(members, "M"@) is Some
}

/// The trade that a JSON value describes, if it describes one.
pub open spec fn trade_of_json(json: Json) -> Option<TradeRecord> {
    match json {
        Json::Object(members) => if are_trade_members(members@) {
            Some(
                TradeRecord {
                    a: integer_member(members@, "a"@).unwrap(),
                    p: text_member(members@, "p"@).unwrap(),
                    q: text_member(members@, "q"@).unwrap(),
                    f: integer_member(members@, "f"@).unwrap(),
                    l: integer_member(members@, "l"@).unwrap(),
                    T: integer_member(members@, "T"@).unwrap(),
                    m: flag_member(members@, "m"@).unwrap(),
                    M: flag_member(members@, "M"@).unwrap(),
                },
            )
        } else {
            None
        },
        _ => None,
    }
}

/// The trades that a JSON value lists, if it is an array of trades.
pub open spec fn trades_of_json(json: Json) -> Option<Seq<TradeRecord>> {
    match json {
        Json::Array(items) => if forall|k: int|
            0 <= k < items@.len() ==> trade_of_json(#[trigger] items@[k]) is Some {
            Some(Seq::new(items@.len(), |k: int| trade_of_json(items@[k]).unwrap()))
        } else {
            None
        },
        _ => None,
    }
}

/// The trades that the text of an answer lists, if it is a JSON array of
/// trades.
pub open spec fn trades_of_text(text: Seq<char>) -> Option<Seq<TradeRecord>> {
    match json_document(text) {
        Some(json) => trades_of_json(json),
        None => None,
    }
}

fn integer_of_member(members: &Vec<(String, Json)>, name: &str) -> (found: Option<i64>)
    ensures
        found == integer_member(members@, name@),
{
    match find_member(members, name) {
        Some(Json::Number(Some(number))) => Some(*number),
        _ => None,
    }
}

fn text_of_member(members: &Vec<(String, Json)>, name: &str) -> (found: Option<String>)
    ensures
        match found {
            Some(text) => text_member(members@, name@) == Some(text@),
            None => text_member(members@, name@) is None,
        },
{
    match find_member(members, name) {
        Some(Json::Text(text)) => Some(text.clone()),
        _ => None,
    }
}

fn flag_of_member(members: &Vec<(String, Json)>, name: &str) -> (found: Option<bool>)
    ensures
        found == flag_member(members@, name@),
{
    match find_member(members, name) {
        Some(Json::Bool(flag)) => Some(*flag),
        _ => None,
    }
}

/// Reads one trade from a JSON object.
pub fn trade_from_json(json: &Json) -> (trade: Option<AggTradesResponseItem>)
    ensures
        match trade {
            Some(item) => trade_of_json(*json) == Some(item@),
            None => trade_of_json(*json) is None,
        },
{
    let members = match json {
        Json::Object(members) => members,
        _ => {
            return None;
        },
    };
    let a = match integer_of_member(members, "a") {
        Some(number) => number,
        None => {
            return None;
        },
    };
    let p = match text_of_member(members, "p") {
        Some(text) => text,
        None => {
            return None;
        },
    };
    let q = match text_of_member(members, "q") {
        Some(text) => text,
        None => {
            return None;
        },
    };
    let f = match integer_of_member(members, "f") {
        Some(number) => number,
        None => {
            return None;
        },
    };
    let l = match integer_of_member(members, "l") {
        Some(number) => number,
        None => {
            return None;
        },
    };
    let t = match integer_of_member(members, "T") {
        Some(number) => number,
        None => {
            return None;
        },
    };
    let m = match flag_of_member(members, "m") {
        Some(flag) => flag,
        None => {
            return None;
        },
    };
    let best = match flag_of_member(members, "M") {
        Some(flag) => flag,
        None => {
            return None;
        },
    };
    Some(AggTradesResponseItem { a, p, q, f, l, T: t, m, M: best })
}

/// Reads a list of trades from a JSON array. One value in it that is no
/// trade makes the whole list unreadable.
pub fn trades_from_json(json: &Json) -> (trades: Option<Vec<AggTradesResponseItem>>)
    ensures
        match trades {
            Some(list) => trades_of_json(*json) == Some(records(list@)),
            None => trades_of_json(*json) is None,
        },
{
    let items = match json {
        Json::Array(items) => items,
        _ => {
            return None;
        },
    };
    let mut trades: Vec<AggTradesResponseItem> = Vec::new();
    let mut at: usize = 0;
    while at < items.len()
        invariant
            at <= items.len(),
            *json == Json::Array(*items),
            trades@.len() == at,
            forall|k: int| 0 <= k < at ==> trade_of_json(#[trigger] items@[k]) == Some(trades@[k]@),
        decreases items.len() - at,
    {
        match trade_from_json(&items[at]) {
            Some(trade) => {
                trades.push(trade);
            },
            None => {
                return None;
            },
        }
        at += 1;
    }
    assert(records(trades@) =~= Seq::new(items@.len(), |k: int| trade_of_json(items@[k]).unwrap()));
    Some(trades)
}

/// Reads the list of trades from the text of an answer: a JSON array of
/// objects, each with the eight keys of a trade. Where an object writes a key
/// twice, the document holds the key once, with the value written last, as
/// `serde_json` reads it.
pub fn deserialize_trades(text: &str) -> (trades: Option<Vec<AggTradesResponseItem>>)
    ensures
        match trades {
            Some(list) => trades_of_text(text@) == Some(records(list@)),
            None => trades_of_text(text@) is None,
        },
{
    match parse_json(text) {
        Ok(json) => trades_from_json(&json),
        Err(_) => None,
    }
}

} // verus!
