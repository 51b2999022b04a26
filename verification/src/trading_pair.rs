//! Trading pair identifier — a base/quote asset combination.
use vstd::prelude::*;
use vstd::string::*;

use crate::types::{asset_index, asset_ticker, Asset};

verus! {

/// A trading pair: the base asset is traded, the quote asset prices it.
/// For example `ETH-USDC` means "buy/sell ETH priced in USDC".
#[derive(Debug, Clone, Copy, PartialEq, Eq, Hash, Structural)]
pub struct TradingPair {
    /// The asset being traded.
    pub base: Asset,
    /// The asset used to price the base.
    pub quote: Asset,
}

/// The display form of a pair: base ticker, `-`, quote ticker.
pub open spec fn pair_text(p: TradingPair) -> Seq<char> {
    asset_ticker(p.base) + seq!['-'] + asset_ticker(p.quote)
}

/// The position of a pair among the 25 base/quote combinations.
pub open spec fn pair_index(p: TradingPair) -> int {
    asset_index(p.base) * 5 + asset_index(p.quote)
}

impl TradingPair {
    /// Creates a new trading pair.
    pub fn new(base: Asset, quote: Asset) -> (p: TradingPair)
        ensures
            p.base == base,
            p.quote == quote,
    {
        TradingPair { base, quote }
    }

    /// Position of the pair among the 25 base/quote combinations.
    pub fn index(&self) -> (i: usize)
        ensures
            i == pair_index(*self),
            i < 25,
    {
        self.base.index() * 5 + self.quote.index()
    }

    /// The pair's display form, e.g. `"ETH-USDC"`.
    pub fn to_string(&self) -> (s: String)
        ensures
            s@ == pair_text(*self),
    {
        let mut s = self.base.to_string();
        proof {
            reveal_strlit("-");
        }
        s.append("-");
        let q = self.quote.to_string();
        s.append(q.as_str());
        s
    }
}

/// Distinct pairs have distinct indices.
pub proof fn lemma_pair_index_injective(a: TradingPair, b: TradingPair)
    ensures
        pair_index(a) == pair_index(b) <==> a == b,
        0 <= pair_index(a) < 25,
{
}

} // verus!
