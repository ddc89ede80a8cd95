//! Base data: exchange price levels, exchange snapshots and currency pairs.

use vstd::prelude::*;
use vstd::string::StringSliceAdditionalSpecFns;
use crate::decimal::{Decimal, decimal_text};

verus! {

/// Number of price levels kept on each side of the consolidated book.
pub const NUM_LEVELS: usize = 10;

/// Side of a trading book.
#[derive(PartialEq, Eq, Structural, Debug, Clone, Copy)]
pub enum Side {
    Buy,
    Sell,
}

/// The product traded: a currency pair such as ETH-BTC.
#[derive(PartialEq, Debug, Clone)]
pub struct CurrencyPair {
    pub main: String,
    pub counter: String,
}

/// One price level of one side of an exchange's book.
#[derive(PartialEq, Debug, Clone, Copy)]
pub struct ExchangeLevel {
    /// Code of the exchange that publishes the level.
    pub exchange_code: &'static str,
    /// Price of the level.
    pub price: Decimal,
    /// Amount offered at that price.
    pub amount: Decimal,
}

impl ExchangeLevel {
    /// Price and amount are well-formed decimals.
    pub open spec fn wf(self) -> bool {
        self.price.wf() && self.amount.wf()
    }

    /// Builds a level from the texts of its price and amount.
    pub fn from_strs(exchange_code: &'static str, price_str: &str, amount_str: &str) -> (r:
        ExchangeLevel)
        requires
            decimal_text(price_str@) is Some,
            decimal_text(amount_str@) is Some,
        ensures
            r.exchange_code == exchange_code,
            r.price == Decimal::from_parts(decimal_text(price_str@)->Some_0),
            r.amount == Decimal::from_parts(decimal_text(amount_str@)->Some_0),
            r.wf(),
    {
        let price = Decimal::parse(price_str);
        let amount = Decimal::parse(amount_str);
        ExchangeLevel { exchange_code, price: price.unwrap(), amount: amount.unwrap() }
    }

    /// Builds a level from the texts of its price and amount, or `None` where
    /// one of them is not a decimal number.
    pub fn try_from_strs(exchange_code: &'static str, price_str: &str, amount_str: &str) -> (r:
        Option<ExchangeLevel>)
        ensures
            r is Some <==> (decimal_text(price_str@) is Some && decimal_text(amount_str@) is Some),
            r matches Some(l) ==> {
                &&& l.exchange_code == exchange_code
                &&& l.price == Decimal::from_parts(decimal_text(price_str@)->Some_0)
                &&& l.amount == Decimal::from_parts(decimal_text(amount_str@)->Some_0)
                &&& l.wf()
            },
    {
        if Decimal::parse(price_str).is_none() || Decimal::parse(amount_str).is_none() {
            None
        } else {
            Some(ExchangeLevel::from_strs(exchange_code, price_str, amount_str))
        }
    }
}

/// Whether two exchange codes are the same text.
pub fn same_code(a: &str, b: &str) -> (r: bool)
    ensures
        r == (a@ == b@),
{
    let ab = a.as_bytes();
    let bb = b.as_bytes();
    if ab.len() != bb.len() {
        assert(ab@ != bb@);
        return false;
    }
    let mut i: usize = 0;
    while i < ab.len()
        invariant
            ab@ == a.spec_bytes(),
            bb@ == b.spec_bytes(),
            ab@.len() == bb@.len(),
            0 <= i <= ab@.len(),
            forall|k: int| 0 <= k < i ==> ab@[k] == bb@[k],
        decreases ab@.len() - i,
    {
        if ab[i] != bb[i] {
            assert(ab@ != bb@);
            return false;
        }
        i = i + 1;
    }
    assert(ab@ =~= bb@);
    proof {
        vstd::utf8::encode_utf8_decode_utf8(a@);
        vstd::utf8::encode_utf8_decode_utf8(b@);
    }
    true
}

/// A snapshot of the top of one exchange's book: bids from the highest price,
/// asks from the lowest.
#[derive(PartialEq, Debug)]
pub struct BookUpdate {
    /// Code of the exchange that sent the snapshot.
    pub exchange_code: &'static str,
    /// Bid levels.
    pub bids: Vec<ExchangeLevel>,
    /// Ask levels.
    pub asks: Vec<ExchangeLevel>,
}

} // verus!
