use orderbook_aggregator::aggregator::{AggregateBook, UpdateError};
use orderbook_aggregator::level::AggregateLevel;
use orderbook_aggregator::side::{is_ranked, AggregateBookSide, Ranking};
use orderbook_aggregator::book::{BookUpdate, ExchangeLevel};
use orderbook_aggregator::decimal::Decimal;

fn dec(s: &str) -> Decimal {
    Decimal::parse(s).unwrap()
}

fn lvl(code: &'static str, price: &str, amount: &str) -> ExchangeLevel {
    ExchangeLevel::from_strs(code, price, amount)
}

fn side(ordering: Ranking, max_levels: usize, levels: Vec<ExchangeLevel>) -> AggregateBookSide {
    AggregateBookSide::new(ordering, max_levels, levels.into_iter().map(AggregateLevel::from_level).collect())
}

fn prices_and_totals(side: &AggregateBookSide) -> Vec<(Decimal, Decimal)> {
    (0..side.len()).map(|i| (side.level(i).price, side.level(i).total_amount().unwrap())).collect()
}

#[test]
fn empty_book_takes_the_snapshot() {
    let mut book = AggregateBook::new(3);
    let update = BookUpdate {
        exchange_code: "X",
        bids: vec![lvl("X", "99", "10"), lvl("X", "98", "10"), lvl("X", "97", "10")],
        asks: vec![lvl("X", "100", "10"), lvl("X", "101", "10"), lvl("X", "102", "10")],
    };
    assert!(update.is_ordered());
    book.update(update);
    assert_eq!(book.best_bids(), vec![lvl("X", "99", "10"), lvl("X", "98", "10"), lvl("X", "97", "10")]);
    assert_eq!(book.best_asks(), vec![lvl("X", "100", "10"), lvl("X", "101", "10"), lvl("X", "102", "10")]);
    let (best_bid, best_ask) = book.best_bid_and_ask().unwrap();
    assert_eq!(best_bid, dec("99"));
    assert_eq!(best_ask, dec("100"));
    assert_eq!(best_ask.mantissa() - best_bid.mantissa(), 1);
    assert_eq!(book.spread(), Some(dec("1")));
    book.bids.check_integrity();
    assert!(book.bids.is_strictly_ranked());
    book.asks.check_integrity();
    assert!(book.asks.is_strictly_ranked());
}

#[test]
fn interleaved_insert_on_bids() {
    let mut bids = side(Ranking::GreaterFirst, 10, vec![lvl("Y", "99", "10"), lvl("Y", "97", "10"), lvl("Y", "95", "10")]);
    bids.update_side(vec![lvl("Z", "100", "10"), lvl("Z", "98", "10"), lvl("Z", "94", "10")]);
    let expected = side(
        Ranking::GreaterFirst,
        10,
        vec![
            lvl("Z", "100", "10"),
            lvl("Y", "99", "10"),
            lvl("Z", "98", "10"),
            lvl("Y", "97", "10"),
            lvl("Y", "95", "10"),
            lvl("Z", "94", "10"),
        ],
    );
    assert_eq!(bids, expected);
}

#[test]
fn merge_and_withdraw_on_bids() {
    let mut bids = side(Ranking::GreaterFirst, 10, vec![lvl("Y", "99", "10"), lvl("Y", "98", "10"), lvl("Y", "97", "10")]);
    bids.update_side(vec![lvl("Z", "99", "5"), lvl("Z", "98", "15"), lvl("Z", "96", "10")]);
    assert_eq!(
        prices_and_totals(&bids),
        vec![(dec("99"), dec("15")), (dec("98"), dec("25")), (dec("97"), dec("10")), (dec("96"), dec("10"))]
    );
}

#[test]
fn merge_and_withdraw_with_trimming() {
    let mut bids = side(Ranking::GreaterFirst, 3, vec![lvl("Y", "99", "10"), lvl("Y", "98", "10"), lvl("Y", "97", "10")]);
    bids.update_side(vec![lvl("Z", "99", "5"), lvl("Z", "98", "15"), lvl("Z", "96", "10")]);
    assert_eq!(bids.len(), 3);
    assert_eq!(
        prices_and_totals(&bids),
        vec![(dec("99"), dec("15")), (dec("98"), dec("25")), (dec("97"), dec("10"))]
    );
}

#[test]
fn best_bids_break_a_price_tie_by_amount() {
    let book = AggregateBook {
        bids: AggregateBookSide::new(
            Ranking::GreaterFirst,
            3,
            vec![
                AggregateLevel::from_levels(vec![lvl("A", "101", "5"), lvl("B", "101", "10")]),
                AggregateLevel::from_level(lvl("B", "100", "10")),
                AggregateLevel::from_level(lvl("A", "99", "10")),
            ],
        ),
        asks: AggregateBookSide::new(Ranking::LessFirst, 3, vec![]),
    };
    assert_eq!(book.best_bids(), vec![lvl("B", "101", "10"), lvl("A", "101", "5"), lvl("B", "100", "10")]);
    assert_eq!(book.best_asks(), vec![]);
    assert_eq!(book.best_bid_and_ask(), None);
    assert_eq!(book.spread(), None);
}

#[test]
fn unordered_snapshot_is_refused() {
    let update = BookUpdate {
        exchange_code: "X",
        bids: vec![lvl("X", "99", "10"), lvl("X", "100", "10")],
        asks: vec![lvl("X", "102", "10"), lvl("X", "103", "10")],
    };
    assert!(!update.is_ordered());
    assert!(!is_ranked(Ranking::GreaterFirst, &update.bids));
    assert!(is_ranked(Ranking::LessFirst, &update.asks));
    let repeated = vec![lvl("X", "99", "10"), lvl("X", "99.0", "5")];
    assert!(!is_ranked(Ranking::GreaterFirst, &repeated));
}

#[test]
fn snapshot_replaces_its_exchange_up_to_its_last_price() {
    let mut bids = side(Ranking::GreaterFirst, 10, vec![lvl("Y", "99", "10"), lvl("Y", "98", "10"), lvl("Y", "97", "10")]);
    bids.update_side(vec![lvl("Y", "99.5", "1"), lvl("Y", "97.5", "2")]);
    assert_eq!(
        prices_and_totals(&bids),
        vec![(dec("99.5"), dec("1")), (dec("97.5"), dec("2")), (dec("97"), dec("10"))]
    );
}

#[test]
fn second_snapshot_replaces_the_first() {
    let mut book = AggregateBook::new(10);
    book.update(BookUpdate {
        exchange_code: "X",
        bids: vec![lvl("X", "99", "10"), lvl("X", "98", "10")],
        asks: vec![lvl("X", "100", "10"), lvl("X", "101", "10")],
    });
    book.update(BookUpdate {
        exchange_code: "X",
        bids: vec![lvl("X", "97", "3")],
        asks: vec![lvl("X", "102", "4")],
    });
    assert_eq!(book.best_bids(), vec![lvl("X", "97", "3")]);
    assert_eq!(book.best_asks(), vec![lvl("X", "102", "4")]);
}

#[test]
fn same_snapshot_twice_changes_nothing() {
    let update = || BookUpdate {
        exchange_code: "X",
        bids: vec![lvl("X", "99", "10"), lvl("X", "97", "1")],
        asks: vec![lvl("X", "100", "10")],
    };
    let mut book = AggregateBook::new(10);
    book.update(BookUpdate { exchange_code: "Y", bids: vec![lvl("Y", "98", "2")], asks: vec![lvl("Y", "101", "2")] });
    book.update(update());
    let bids_once = book.best_bids();
    let asks_once = book.best_asks();
    book.update(update());
    assert_eq!(book.best_bids(), bids_once);
    assert_eq!(book.best_asks(), asks_once);
}

#[test]
fn snapshots_of_two_exchanges_commute() {
    let x = || BookUpdate { exchange_code: "X", bids: vec![lvl("X", "99", "10"), lvl("X", "97", "1")], asks: vec![] };
    let y = || BookUpdate { exchange_code: "Y", bids: vec![lvl("Y", "99", "4"), lvl("Y", "98", "1")], asks: vec![] };
    let mut first = AggregateBook::new(10);
    first.update(x());
    first.update(y());
    let mut second = AggregateBook::new(10);
    second.update(y());
    second.update(x());
    let mut a = first.best_bids();
    let mut b = second.best_bids();
    a.sort_by_key(|l| (l.price.mantissa(), l.exchange_code));
    b.sort_by_key(|l| (l.price.mantissa(), l.exchange_code));
    assert_eq!(a, b);
}

#[test]
fn snapshot_beyond_a_full_side_changes_nothing() {
    let mut asks = side(Ranking::LessFirst, 3, vec![lvl("Y", "100", "1"), lvl("Y", "101", "1"), lvl("Y", "102", "1")]);
    asks.update_side(vec![lvl("Z", "103", "1"), lvl("Z", "104", "1")]);
    let expected = side(Ranking::LessFirst, 3, vec![lvl("Y", "100", "1"), lvl("Y", "101", "1"), lvl("Y", "102", "1")]);
    assert_eq!(asks, expected);
}

#[test]
fn merge_keeps_other_exchanges() {
    let mut level = AggregateLevel::from_levels(vec![lvl("A", "10", "1"), lvl("B", "10", "2")]);
    level.update(lvl("A", "10", "7"));
    assert_eq!(level.exchange_levels, vec![lvl("A", "10", "7"), lvl("B", "10", "2")]);
    level.remove("A");
    assert_eq!(level.exchange_levels, vec![lvl("B", "10", "2")]);
    level.remove("C");
    assert_eq!(level.exchange_levels, vec![lvl("B", "10", "2")]);
}

#[test]
fn side_may_grow_past_its_depth_by_insertion() {
    let mut bids = side(Ranking::GreaterFirst, 1, vec![lvl("Y", "99", "1")]);
    bids.update_side(vec![lvl("Z", "100", "1")]);
    assert_eq!(bids.len(), 2);
    assert_eq!(bids.best_levels(), vec![lvl("Z", "100", "1")]);
}

#[test]
fn total_amount_reports_overflow() {
    let big = "79228162514264337593543950335";
    let level = AggregateLevel::from_levels(vec![lvl("A", "1", big), lvl("B", "1", big)]);
    assert_eq!(level.total_amount(), None);
}

#[test]
fn integrity_check_follows_the_ranking() {
    let bids = side(Ranking::GreaterFirst, 10, vec![lvl("Y", "99", "10"), lvl("Y", "97", "10")]);
    bids.check_integrity();
    assert!(bids.is_strictly_ranked());
    let unordered = AggregateBookSide {
        ordering: Ranking::LessFirst,
        max_levels: 10,
        data: vec![AggregateLevel::from_level(lvl("Y", "99", "10")), AggregateLevel::from_level(lvl("Y", "97", "10"))],
    };
    assert!(!unordered.is_strictly_ranked());
}

#[test]
fn empty_snapshot_leaves_the_side() {
    let mut asks = side(Ranking::LessFirst, 3, vec![lvl("Y", "100", "1"), lvl("Z", "101", "2")]);
    asks.update_side(vec![]);
    let expected = side(Ranking::LessFirst, 3, vec![lvl("Y", "100", "1"), lvl("Z", "101", "2")]);
    assert_eq!(asks, expected);
}

#[test]
fn later_level_of_the_same_exchange_wins() {
    let level = AggregateLevel::from_levels(vec![lvl("A", "10", "1"), lvl("B", "10", "2"), lvl("A", "10.0", "3")]);
    assert_eq!(level.exchange_levels, vec![lvl("A", "10.0", "3"), lvl("B", "10", "2")]);
    assert_eq!(level.price, dec("10"));
    assert_eq!(level.total_amount(), Some(dec("5")));
}

#[test]
fn snapshot_wipes_a_full_side_of_its_exchange_before_the_cap() {
    let mut bids = side(Ranking::GreaterFirst, 3, vec![lvl("Y", "99", "10"), lvl("Y", "98", "10"), lvl("Y", "97", "10")]);
    bids.update_side(vec![lvl("Y", "96", "10")]);
    assert_eq!(bids.len(), 0);
}

#[test]
fn unordered_snapshot_leaves_the_book() {
    let mut book = AggregateBook::new(3);
    let first = BookUpdate { exchange_code: "X", bids: vec![lvl("X", "98", "1")], asks: vec![lvl("X", "101", "1")] };
    assert_eq!(book.update_checked(first), Ok(()));
    let bad = BookUpdate {
        exchange_code: "X",
        bids: vec![lvl("X", "99", "10"), lvl("X", "100", "10")],
        asks: vec![lvl("X", "102", "10")],
    };
    assert_eq!(book.update_checked(bad), Err(UpdateError::UnorderedSnapshot));
    assert_eq!(book.best_bids(), vec![lvl("X", "98", "1")]);
    assert_eq!(book.best_asks(), vec![lvl("X", "101", "1")]);
}

#[test]
fn merge_at_a_held_price_on_a_full_side() {
    let mut bids = AggregateBookSide::new(
        Ranking::GreaterFirst,
        2,
        vec![
            AggregateLevel::from_levels(vec![lvl("Y", "99", "10"), lvl("Z", "99", "3")]),
            AggregateLevel::from_level(lvl("Y", "98", "10")),
        ],
    );
    bids.update_side(vec![lvl("Z", "99", "5")]);
    assert_eq!(bids.len(), 2);
    assert_eq!(bids.level(0).exchange_levels, vec![lvl("Y", "99", "10"), lvl("Z", "99", "5")]);
    assert_eq!(bids.level(1).exchange_levels, vec![lvl("Y", "98", "10")]);
}
