//! The consolidated book: two sides of price levels merged from the
//! snapshots of several exchanges.

use vstd::prelude::*;
use crate::book::{BookUpdate, ExchangeLevel};
use crate::decimal::{Decimal, decimal_difference};
use crate::level::{AggregateLevelView, lemma_sorted_members, sort_by_amount};
use crate::side::{AggregateBookSide, Ranking, at_most, is_ranked, levels_wf, ranked_entries, snapshot_ranked, updated_levels};

verus! {

/// The consolidated book: bids from the highest price, asks from the lowest.
#[derive(PartialEq, Debug)]
pub struct AggregateBook {
    pub bids: AggregateBookSide,
    pub asks: AggregateBookSide,
}

/// Why a snapshot was refused.
#[derive(PartialEq, Eq, Structural, Debug, Clone, Copy)]
pub enum UpdateError {
    /// Bids do not fall, or asks do not rise, strictly in price, or a level
    /// holds a malformed decimal.
    UnorderedSnapshot,
}

/// The two sides of a snapshot follow the rankings of bids and asks.
pub open spec fn update_ordered(u: BookUpdate) -> bool {
    &&& snapshot_ranked(u.bids@, Ranking::GreaterFirst)
    &&& snapshot_ranked(u.asks@, Ranking::LessFirst)
}

impl AggregateBook {
    /// Both sides keep their invariant, bids ranked high first and asks low first.
    pub open spec fn wf(self) -> bool {
        &&& self.bids.wf()
        &&& self.asks.wf()
        &&& self.bids.ordering == Ranking::GreaterFirst
        &&& self.asks.ordering == Ranking::LessFirst
    }

    /// An empty book keeping `max_levels` levels on each side.
    pub fn new(max_levels: usize) -> (r: AggregateBook)
        ensures
            r.wf(),
            r.bids.levels().len() == 0,
            r.asks.levels().len() == 0,
            r.bids.max_levels == max_levels,
            r.asks.max_levels == max_levels,
    {
        let bids = AggregateBookSide::new(Ranking::GreaterFirst, max_levels, Vec::new());
        let asks = AggregateBookSide::new(Ranking::LessFirst, max_levels, Vec::new());
        AggregateBook { bids, asks }
    }

    /// The best bids, from the highest price; at most `max_levels` of them.
    pub fn best_bids(&self) -> (r: Vec<ExchangeLevel>)
        requires
            self.wf(),
        ensures
            r@ == at_most(ranked_entries(self.bids.levels()), self.bids.max_levels as int),
    {
        self.bids.best_levels()
    }

    /// The best asks, from the lowest price; at most `max_levels` of them.
    pub fn best_asks(&self) -> (r: Vec<ExchangeLevel>)
        requires
            self.wf(),
        ensures
            r@ == at_most(ranked_entries(self.asks.levels()), self.asks.max_levels as int),
    {
        self.asks.best_levels()
    }

    /// The prices of the best bid and of the best ask, from which the spread
    /// is taken; `None` when either side has no best level.
    pub fn best_bid_and_ask(&self) -> (r: Option<(Decimal, Decimal)>)
        requires
            self.wf(),
        ensures
            ({
                let bids = at_most(ranked_entries(self.bids.levels()), self.bids.max_levels as int);
                let asks = at_most(ranked_entries(self.asks.levels()), self.asks.max_levels as int);
                &&& r is Some <==> bids.len() > 0 && asks.len() > 0
                &&& r matches Some(pair) ==> pair == (bids[0].price, asks[0].price)
            }),
    {
        let bids = self.best_bids();
        let asks = self.best_asks();
        if bids.len() == 0 || asks.len() == 0 {
            None
        } else {
            Some((bids[0].price, asks[0].price))
        }
    }

    /// The spread, best ask price less best bid price; `None` when either
    /// side has no best level, or when the difference does not fit a decimal.
    pub fn spread(&self) -> (r: Option<Decimal>)
        requires
            self.wf(),
        ensures
            ({
                let bids = at_most(ranked_entries(self.bids.levels()), self.bids.max_levels as int);
                let asks = at_most(ranked_entries(self.asks.levels()), self.asks.max_levels as int);
                let (a, b) = ((asks[0].price.mantissa, asks[0].price.scale), (bids[0].price.mantissa, bids[0].price.scale));
                &&& bids.len() == 0 || asks.len() == 0 ==> r is None
                &&& bids.len() > 0 && asks.len() > 0 ==> (r is Some <==> decimal_difference(a, b) is Some)
                &&& r matches Some(d) ==> d == Decimal::from_parts(decimal_difference(a, b)->Some_0)
            }),
    {
        match self.best_bid_and_ask() {
            None => None,
            Some((bid, ask)) => {
                proof {
                    lemma_best_prices_wf(self.bids.levels(), self.bids.max_levels as int);
                    lemma_best_prices_wf(self.asks.levels(), self.asks.max_levels as int);
                }
                ask.checked_sub(&bid)
            },
        }
    }

    /// Applies a snapshot from an exchange to both sides, or refuses it,
    /// leaving the book as it was, when its sides are out of order.
    pub fn update_checked(&mut self, book_update: BookUpdate) -> (r: Result<(), UpdateError>)
        requires
            old(self).wf(),
        ensures
            final(self).wf(),
            r is Err <==> !update_ordered(book_update),
            r is Err ==> final(self).bids.levels() == old(self).bids.levels() && final(self).asks.levels()
                == old(self).asks.levels() && final(self).bids.max_levels == old(self).bids.max_levels
                && final(self).asks.max_levels == old(self).asks.max_levels,
            r is Ok ==> final(self).bids.levels() == updated_levels(
                old(self).bids.levels(),
                book_update.bids@,
                Ranking::GreaterFirst,
                old(self).bids.max_levels as int,
            ) && final(self).asks.levels() == updated_levels(
                old(self).asks.levels(),
                book_update.asks@,
                Ranking::LessFirst,
                old(self).asks.max_levels as int,
            ),
    {
        if book_update.is_ordered() {
            self.update(book_update);
            Ok(())
        } else {
            Err(UpdateError::UnorderedSnapshot)
        }
    }

    /// Applies a snapshot from an exchange to both sides.
    pub fn update(&mut self, book_update: BookUpdate)
        requires
            old(self).wf(),
            update_ordered(book_update),
        ensures
            final(self).wf(),
            final(self).bids.max_levels == old(self).bids.max_levels,
            final(self).asks.max_levels == old(self).asks.max_levels,
            final(self).bids.levels() == updated_levels(
                old(self).bids.levels(),
                book_update.bids@,
                Ranking::GreaterFirst,
                old(self).bids.max_levels as int,
            ),
            final(self).asks.levels() == updated_levels(
                old(self).asks.levels(),
                book_update.asks@,
                Ranking::LessFirst,
                old(self).asks.max_levels as int,
            ),
    {
        self.bids.update_side(book_update.bids);
        self.asks.update_side(book_update.asks);
    }
}

impl BookUpdate {
    /// Whether bids fall and asks rise strictly in price, with well-formed
    /// levels: what `AggregateBook::update` asks of a snapshot.
    pub fn is_ordered(&self) -> (r: bool)
        ensures
            r == update_ordered(*self),
    {
        is_ranked(Ranking::GreaterFirst, &self.bids) && is_ranked(Ranking::LessFirst, &self.asks)
    }
}

/// The best exchange levels of a side hold well-formed decimals.
proof fn lemma_best_prices_wf(levels: Seq<AggregateLevelView>, n: int)
    requires
        levels_wf(levels),
        n >= 0,
    ensures
        forall|k: int|
            0 <= k < at_most(ranked_entries(levels), n).len() ==> (#[trigger] at_most(ranked_entries(levels), n)[k]).wf(),
{
    lemma_ranked_entries_wf(levels);
    let s = ranked_entries(levels);
    assert forall|k: int| 0 <= k < at_most(s, n).len() implies (#[trigger] at_most(s, n)[k]).wf() by {
        assert(at_most(s, n)[k] == s[k]);
    }
}

/// Every exchange level of a side's ranked entries is well formed.
proof fn lemma_ranked_entries_wf(levels: Seq<AggregateLevelView>)
    requires
        levels_wf(levels),
    ensures
        forall|k: int| 0 <= k < ranked_entries(levels).len() ==> (#[trigger] ranked_entries(levels)[k]).wf(),
    decreases levels.len(),
{
    if levels.len() > 0 {
        let init = levels.drop_last();
        assert forall|m: int| 0 <= m < init.len() implies #[trigger] init[m].wf() by {
            assert(init[m] == levels[m]);
        }
        lemma_ranked_entries_wf(init);
        let last = levels.last();
        assert(levels[levels.len() - 1].wf());
        lemma_sorted_members(last.entries);
        let a = ranked_entries(init);
        let b = sort_by_amount(last.entries);
        assert(ranked_entries(levels) == a + b);
        assert forall|k: int| 0 <= k < (a + b).len() implies (#[trigger] (a + b)[k]).wf() by {
            if k < a.len() {
                assert((a + b)[k] == a[k]);
            } else {
                assert((a + b)[k] == b[k - a.len()]);
                assert(last.entries.contains(b[k - a.len()]));
                let w = choose|w: int| 0 <= w < last.entries.len() && last.entries[w] == b[k - a.len()];
                assert(last.entries[w].wf());
            }
        }
    }
}

} // verus!
