//! The fill events that the engine publishes to a Redis stream: one stream
//! entry per trade, as field/value text pairs.
use vstd::prelude::*;
use vstd::string::*;

use crate::grpc::{uuid_text, uuid_text_spec};
use crate::trade::{Trade, TradeInfoView};
use crate::trading_pair::{pair_text, TradingPair};
use crate::wal::hex_digit;

verus! {

/// The stream the fills are published to.
pub const FILLS_STREAM: &'static str = "vertex:fills";

/// The approximate length the stream is trimmed to.
pub const MAX_LEN: u64 = 10_000;

/// The decimal digits of `n`, most significant first (no leading zeros).
pub open spec fn dec_text(n: nat) -> Seq<char>
    decreases n,
{
    if n < 10 {
        seq![hex_digit(n as u64)]
    } else {
        dec_text(n / 10).push(hex_digit((n % 10) as u64))
    }
}

/// The decimal text of an integer, with a leading `-` when negative.
pub open spec fn int_text(v: int) -> Seq<char> {
    if v < 0 {
        seq!['-'] + dec_text((-v) as nat)
    } else {
        dec_text(v as nat)
    }
}

/// The one-character text of decimal digit `d`.
fn digit_text(d: u64) -> (s: &'static str)
    requires
        d < 10,
    ensures
        s@ == seq![hex_digit(d)],
{
    proof {
        reveal_strlit("0");
        reveal_strlit("1");
        reveal_strlit("2");
        reveal_strlit("3");
        reveal_strlit("4");
        reveal_strlit("5");
        reveal_strlit("6");
        reveal_strlit("7");
        reveal_strlit("8");
        reveal_strlit("9");
    }
    if d == 0 {
        "0"
    } else if d == 1 {
        "1"
    } else if d == 2 {
        "2"
    } else if d == 3 {
        "3"
    } else if d == 4 {
        "4"
    } else if d == 5 {
        "5"
    } else if d == 6 {
        "6"
    } else if d == 7 {
        "7"
    } else if d == 8 {
        "8"
    } else {
        "9"
    }
}

/// The decimal text of `n` (see [`dec_text`]).
pub fn u64_text(n: u64) -> (s: String)
    ensures
        s@ == dec_text(n as nat),
    decreases n,
{
    if n < 10 {
        digit_text(n).to_owned()
    } else {
        let mut s = u64_text(n / 10);
        s.append(digit_text(n % 10));
        s
    }
}

/// The decimal text of `v` (see [`int_text`]).
pub fn i32_text(v: i32) -> (s: String)
    ensures
        s@ == int_text(v as int),
{
    if v < 0 {
        let m: u64 = (-(v as i64)) as u64;
        let mut s = "-".to_owned();
        proof {
            reveal_strlit("-");
        }
        let d = u64_text(m);
        s.append(d.as_str());
        s
    } else {
        u64_text(v as u64)
    }
}

/// A named field of a stream entry.
fn field(name: &str, value: String) -> (f: (String, String))
    ensures
        f.0@ == name@,
        f.1@ == value@,
{
    (name.to_owned(), value)
}

/// The text fields of one side of a trade, under the given prefix's names.
pub open spec fn side_fields_ok(fields: Seq<(String, String)>, at: int, names: Seq<Seq<char>>, info: TradeInfoView) -> bool {
    &&& fields[at].0@ == names[0] && fields[at].1@ == dec_text(info.order_id as nat)
    &&& fields[at + 1].0@ == names[1] && fields[at + 1].1@ == uuid_text_spec(info.user_id)
    &&& fields[at + 2].0@ == names[2] && fields[at + 2].1@ == int_text(info.price as int)
    &&& fields[at + 3].0@ == names[3] && fields[at + 3].1@ == dec_text(info.quantity as nat)
}

/// The stream entry of a trade of pair `pair`: trade id, timestamp and
/// pair, then the buy side's order id, user id, price and quantity, then
/// the sell side's, each as text.
pub fn fill_fields(pair: &TradingPair, trade: &Trade) -> (fields: Vec<(String, String)>)
    ensures
        fields@.len() == 11,
        fields@[0].0@ == "trade_id"@ && fields@[0].1@ == dec_text(trade@.trade_id as nat),
        fields@[1].0@ == "timestamp"@ && fields@[1].1@ == dec_text(trade@.timestamp as nat),
        fields@[2].0@ == "pair"@ && fields@[2].1@ == pair_text(*pair),
        side_fields_ok(fields@, 3, seq!["bid_order_id"@, "bid_user_id"@, "bid_price"@, "bid_quantity"@], trade@.bid),
        side_fields_ok(fields@, 7, seq!["ask_order_id"@, "ask_user_id"@, "ask_price"@, "ask_quantity"@], trade@.ask),
{
    let bid = trade.get_bid_trade_info();
    let ask = trade.get_ask_trade_info();
    let mut fields: Vec<(String, String)> = Vec::new();
    fields.push(field("trade_id", u64_text(trade.get_trade_id())));
    fields.push(field("timestamp", u64_text(trade.get_timestamp())));
    fields.push(field("pair", pair.to_string()));
    fields.push(field("bid_order_id", u64_text(bid.get_order_id())));
    fields.push(field("bid_user_id", uuid_text(bid.get_user_id())));
    fields.push(field("bid_price", i32_text(bid.get_price())));
    fields.push(field("bid_quantity", u64_text(bid.get_quantity() as u64)));
    fields.push(field("ask_order_id", u64_text(ask.get_order_id())));
    fields.push(field("ask_user_id", uuid_text(ask.get_user_id())));
    fields.push(field("ask_price", i32_text(ask.get_price())));
    fields.push(field("ask_quantity", u64_text(ask.get_quantity() as u64)));
    fields
}

} // verus!
