use orderbook_aggregator::aggregator::AggregateBook;
use orderbook_aggregator::level::AggregateLevel;
use orderbook_aggregator::side::{AggregateBookSide, Ranking};
use orderbook_aggregator::book::{BookUpdate, ExchangeLevel};
use orderbook_aggregator::decimal::Decimal;

fn dec(s: &str) -> Decimal {
    Decimal::parse(s).unwrap()
}

#[test]
fn aggregator_test_consolidate_level_create_from_level() {
    let level = ExchangeLevel::from_strs("test", "100.0", "99.9");
    let cons_level = AggregateLevel::from_level(level);
    assert_eq!(cons_level.price, dec("100.0"));
    assert_eq!(cons_level.total_amount().unwrap(), dec("99.9"));
}

#[test]
fn aggregator_test_consolidate_level_create_from_levels() {
    let level1 = ExchangeLevel::from_strs("test1", "100.0", "99.9");
    let level2 = ExchangeLevel::from_strs("test2", "100.0", "99.9");
    let cons_level = AggregateLevel::from_levels(vec![level1, level2]);
    assert_eq!(cons_level.price, dec("100.0"));
    assert_eq!(cons_level.total_amount().unwrap(), dec("199.8"));
}

#[test]
fn test_consolidate_levels_by_amount() {
    let level1 = ExchangeLevel::from_strs("test1", "100.0", "3");
    let level2 = ExchangeLevel::from_strs("test2", "100.0", "1");
    let level3 = ExchangeLevel::from_strs("test3", "100.0", "2");
    let level4 = ExchangeLevel::from_strs("test4", "100.0", "5");
    let cons_level = AggregateLevel::from_levels(vec![level1, level2, level3, level4]);
    assert_eq!(cons_level.price, dec("100.0"));
    assert_eq!(cons_level.total_amount().unwrap(), dec("11"));
    let levels = cons_level.levels_by_amount();
    assert_eq!(levels[0].amount, dec("5"));
    assert_eq!(levels[0].exchange_code, "test4");
    assert_eq!(levels[1].amount, dec("3"));
    assert_eq!(levels[1].exchange_code, "test1");
    assert_eq!(levels[2].amount, dec("2"));
    assert_eq!(levels[2].exchange_code, "test3");
    assert_eq!(levels[3].amount, dec("1"));
    assert_eq!(levels[3].exchange_code, "test2");
}

#[test]
fn aggregator_test_consolidate_level_update_correct() {
    let level1 = ExchangeLevel::from_strs("test1", "100.0", "99.9");
    let level2 = ExchangeLevel::from_strs("test2", "100.0", "90.0");
    let mut cons_level = AggregateLevel::from_level(level1);
    cons_level.update(level2);
    assert_eq!(cons_level.price, dec("100.0"));
    assert_eq!(cons_level.total_amount().unwrap(), dec("189.9"));
}

#[test]
fn aggregator_test_empty_book() {
    let mut book = AggregateBook::new(3);
    let book_update = BookUpdate {
        exchange_code: "test",
        bids: vec![
            ExchangeLevel::from_strs("test", "99", "10"),
            ExchangeLevel::from_strs("test", "98", "10"),
            ExchangeLevel::from_strs("test", "97", "10"),
        ],
        asks: vec![
            ExchangeLevel::from_strs("test", "100", "10"),
            ExchangeLevel::from_strs("test", "101", "10"),
            ExchangeLevel::from_strs("test", "102", "10"),
        ],
    };
    book.update(book_update);
    let exp_book = AggregateBook {
        bids: AggregateBookSide::new(Ranking::GreaterFirst, 3,vec![
            AggregateLevel::from_level(ExchangeLevel::from_strs("test", "99", "10")),
            AggregateLevel::from_level(ExchangeLevel::from_strs("test", "98", "10")),
            AggregateLevel::from_level(ExchangeLevel::from_strs("test", "97", "10")),
        ]),
        asks: AggregateBookSide::new(Ranking::LessFirst, 3, vec![
            AggregateLevel::from_level(ExchangeLevel::from_strs("test", "100", "10")),
            AggregateLevel::from_level(ExchangeLevel::from_strs("test", "101", "10")),
            AggregateLevel::from_level(ExchangeLevel::from_strs("test", "102", "10")),
        ]),
    };
    assert_eq!(book, exp_book);
}

#[test]
fn aggregator_test_insert_into_bids_side() {
    let mut bids = AggregateBookSide::new(Ranking::GreaterFirst, 10, vec![
        AggregateLevel::from_level(ExchangeLevel::from_strs("test1", "99", "10")),
        AggregateLevel::from_level(ExchangeLevel::from_strs("test1", "97", "10")),
        AggregateLevel::from_level(ExchangeLevel::from_strs("test1", "95", "10")),
    ]);
    let bids_update = vec![
        ExchangeLevel::from_strs("test2", "100", "10"),
        ExchangeLevel::from_strs("test2", "98", "10"),
        ExchangeLevel::from_strs("test2", "94", "10"),
    ];
    bids.update_side(bids_update);
    let exp_bids = AggregateBookSide::new(Ranking::GreaterFirst, 10, vec![
        AggregateLevel::from_level(ExchangeLevel::from_strs("test2", "100", "10")),
        AggregateLevel::from_level(ExchangeLevel::from_strs("test1", "99", "10")),
        AggregateLevel::from_level(ExchangeLevel::from_strs("test2", "98", "10")),
        AggregateLevel::from_level(ExchangeLevel::from_strs("test1", "97", "10")),
        AggregateLevel::from_level(ExchangeLevel::from_strs("test1", "95", "10")),
        AggregateLevel::from_level(ExchangeLevel::from_strs("test2", "94", "10")),
    ]);
    assert_eq!(bids, exp_bids);
}

#[test]
fn aggregator_test_add_at_beginning_to_bids_side() {
    let mut bids = AggregateBookSide::new(Ranking::GreaterFirst, 10, vec![
        AggregateLevel::from_level(ExchangeLevel::from_strs("test1", "99", "10")),
        AggregateLevel::from_level(ExchangeLevel::from_strs("test1", "97", "10")),
        AggregateLevel::from_level(ExchangeLevel::from_strs("test1", "95", "10")),
    ]);
    let bids_update = vec![
        ExchangeLevel::from_strs("test2", "102", "10"),
        ExchangeLevel::from_strs("test2", "101", "10"),
        ExchangeLevel::from_strs("test2", "100", "10"),
    ];
    bids.update_side(bids_update);
    let exp_bids = AggregateBookSide::new(Ranking::GreaterFirst, 10, vec![
        AggregateLevel::from_level(ExchangeLevel::from_strs("test2", "102", "10")),
        AggregateLevel::from_level(ExchangeLevel::from_strs("test2", "101", "10")),
        AggregateLevel::from_level(ExchangeLevel::from_strs("test2", "100", "10")),
        AggregateLevel::from_level(ExchangeLevel::from_strs("test1", "99", "10")),
        AggregateLevel::from_level(ExchangeLevel::from_strs("test1", "97", "10")),
        AggregateLevel::from_level(ExchangeLevel::from_strs("test1", "95", "10")),
    ]);
    assert_eq!(bids, exp_bids);
}

#[test]
fn aggregator_test_add_at_end_to_bids_side() {
    let mut bids = AggregateBookSide::new(Ranking::GreaterFirst, 10, vec![
        AggregateLevel::from_level(ExchangeLevel::from_strs("test1", "99", "10")),
        AggregateLevel::from_level(ExchangeLevel::from_strs("test1", "97", "10")),
        AggregateLevel::from_level(ExchangeLevel::from_strs("test1", "95", "10")),
    ]);
    let bids_update = vec![
        ExchangeLevel::from_strs("test2", "94", "10"),
        ExchangeLevel::from_strs("test2", "93", "10"),
        ExchangeLevel::from_strs("test2", "92", "10"),
    ];
    bids.update_side(bids_update);
    let exp_bids = AggregateBookSide::new(Ranking::GreaterFirst, 10, vec![
        AggregateLevel::from_level(ExchangeLevel::from_strs("test1", "99", "10")),
        AggregateLevel::from_level(ExchangeLevel::from_strs("test1", "97", "10")),
        AggregateLevel::from_level(ExchangeLevel::from_strs("test1", "95", "10")),
        AggregateLevel::from_level(ExchangeLevel::from_strs("test2", "94", "10")),
        AggregateLevel::from_level(ExchangeLevel::from_strs("test2", "93", "10")),
        AggregateLevel::from_level(ExchangeLevel::from_strs("test2", "92", "10")),
    ]);
    assert_eq!(bids, exp_bids);
}

#[test]
fn aggregator_test_insert_into_asks_side() {
    let mut asks = AggregateBookSide::new(Ranking::LessFirst,10, vec![
        AggregateLevel::from_level(ExchangeLevel::from_strs("test1", "102", "10")),
        AggregateLevel::from_level(ExchangeLevel::from_strs("test1", "104", "10")),
        AggregateLevel::from_level(ExchangeLevel::from_strs("test1", "106", "10")),
    ]);
    let asks_update = vec![
        ExchangeLevel::from_strs("test2", "103", "10"),
        ExchangeLevel::from_strs("test2", "105", "10"),
        ExchangeLevel::from_strs("test2", "107", "10"),
    ];
    asks.update_side(asks_update);
    let exp_asks = AggregateBookSide::new(Ranking::LessFirst, 10, vec![
        AggregateLevel::from_level(ExchangeLevel::from_strs("test1", "102", "10")),
        AggregateLevel::from_level(ExchangeLevel::from_strs("test2", "103", "10")),
        AggregateLevel::from_level(ExchangeLevel::from_strs("test1", "104", "10")),
        AggregateLevel::from_level(ExchangeLevel::from_strs("test2", "105", "10")),
        AggregateLevel::from_level(ExchangeLevel::from_strs("test1", "106", "10")),
        AggregateLevel::from_level(ExchangeLevel::from_strs("test2", "107", "10")),
    ]);
    assert_eq!(asks, exp_asks);
}

#[test]
fn aggregator_test_add_at_beginning_to_asks_side() {
    let mut asks = AggregateBookSide::new(Ranking::LessFirst, 10, vec![
        AggregateLevel::from_level(ExchangeLevel::from_strs("test1", "102", "10")),
        AggregateLevel::from_level(ExchangeLevel::from_strs("test1", "104", "10")),
        AggregateLevel::from_level(ExchangeLevel::from_strs("test1", "106", "10")),
    ]);
    let asks_update = vec![
        ExchangeLevel::from_strs("test2", "99", "10"),
        ExchangeLevel::from_strs("test2", "100", "10"),
        ExchangeLevel::from_strs("test2", "101", "10"),
    ];
    asks.update_side(asks_update);
    let exp_asks = AggregateBookSide::new(Ranking::LessFirst, 10, vec![
        AggregateLevel::from_level(ExchangeLevel::from_strs("test2", "99", "10")),
        AggregateLevel::from_level(ExchangeLevel::from_strs("test2", "100", "10")),
        AggregateLevel::from_level(ExchangeLevel::from_strs("test2", "101", "10")),
        AggregateLevel::from_level(ExchangeLevel::from_strs("test1", "102", "10")),
        AggregateLevel::from_level(ExchangeLevel::from_strs("test1", "104", "10")),
        AggregateLevel::from_level(ExchangeLevel::from_strs("test1", "106", "10")),
    ]);
    assert_eq!(asks, exp_asks);
}

#[test]
fn aggregator_test_add_at_end_to_asks_side() {
    let mut asks = AggregateBookSide::new(Ranking::LessFirst, 10, vec![
        AggregateLevel::from_level(ExchangeLevel::from_strs("test1", "102", "10")),
        AggregateLevel::from_level(ExchangeLevel::from_strs("test1", "104", "10")),
        AggregateLevel::from_level(ExchangeLevel::from_strs("test1", "106", "10")),
    ]);
    let asks_update = vec![
        ExchangeLevel::from_strs("test2", "107", "10"),
        ExchangeLevel::from_strs("test2", "108", "10"),
        ExchangeLevel::from_strs("test2", "109", "10"),
    ];
    asks.update_side(asks_update);
    let exp_asks = AggregateBookSide::new(Ranking::LessFirst, 10, vec![
        AggregateLevel::from_level(ExchangeLevel::from_strs("test1", "102", "10")),
        AggregateLevel::from_level(ExchangeLevel::from_strs("test1", "104", "10")),
        AggregateLevel::from_level(ExchangeLevel::from_strs("test1", "106", "10")),
        AggregateLevel::from_level(ExchangeLevel::from_strs("test2", "107", "10")),
        AggregateLevel::from_level(ExchangeLevel::from_strs("test2", "108", "10")),
        AggregateLevel::from_level(ExchangeLevel::from_strs("test2", "109", "10")),
    ]);
    assert_eq!(asks, exp_asks);
}

#[test]
fn aggregator_test_update_and_add_into_bids_side() {
    let mut bids = AggregateBookSide::new(Ranking::GreaterFirst, 10, vec![
        AggregateLevel::from_level(ExchangeLevel::from_strs("test1", "99", "10")),
        AggregateLevel::from_level(ExchangeLevel::from_strs("test1", "98", "10")),
        AggregateLevel::from_level(ExchangeLevel::from_strs("test1", "97", "10")),
    ]);
    let bids_update = vec![
        ExchangeLevel::from_strs("test1", "99", "5"),
        ExchangeLevel::from_strs("test1", "98", "15"),
        ExchangeLevel::from_strs("test2", "96", "10"),
    ];
    bids.update_side(bids_update);
    let level1 = bids.level(0);
    assert_eq!(level1.price, dec("99"));
    assert_eq!(level1.total_amount().unwrap(), dec("5"));
    let level2 = bids.level(1);
    assert_eq!(level2.price, dec("98"));
    assert_eq!(level2.total_amount().unwrap(), dec("15"));
    let level3 = bids.level(2);
    assert_eq!(level3.price, dec("97"));
    assert_eq!(level3.total_amount().unwrap(), dec("10"));
    let level4 = bids.level(3);
    assert_eq!(level4.price, dec("96"));
    assert_eq!(level4.total_amount().unwrap(), dec("10"));
}

#[test]
fn aggregator_test_merge_update_and_add_into_bids_side() {
    let mut bids = AggregateBookSide::new(Ranking::GreaterFirst, 10, vec![
        AggregateLevel::from_level(ExchangeLevel::from_strs("test1", "99", "10")),
        AggregateLevel::from_level(ExchangeLevel::from_strs("test1", "98", "10")),
        AggregateLevel::from_level(ExchangeLevel::from_strs("test1", "97", "10")),
    ]);
    let bids_update = vec![
        ExchangeLevel::from_strs("test2", "99", "5"),
        ExchangeLevel::from_strs("test1", "98", "15"),
        ExchangeLevel::from_strs("test2", "96", "10"),
    ];
    bids.update_side(bids_update);
    let level1 = bids.level(0);
    assert_eq!(level1.price, dec("99"));
    assert_eq!(level1.total_amount().unwrap(), dec("15"));
    let level2 = bids.level(1);
    assert_eq!(level2.price, dec("98"));
    assert_eq!(level2.total_amount().unwrap(), dec("15"));
    let level3 = bids.level(2);
    assert_eq!(level3.price, dec("97"));
    assert_eq!(level3.total_amount().unwrap(), dec("10"));
    let level4 = bids.level(3);
    assert_eq!(level4.price, dec("96"));
    assert_eq!(level4.total_amount().unwrap(), dec("10"));
}

#[test]
fn aggregator_test_merge_and_add_into_bids_side() {
    let mut bids = AggregateBookSide::new(Ranking::GreaterFirst, 10, vec![
        AggregateLevel::from_level(ExchangeLevel::from_strs("test1", "99", "10")),
        AggregateLevel::from_level(ExchangeLevel::from_strs("test1", "98", "10")),
        AggregateLevel::from_level(ExchangeLevel::from_strs("test1", "97", "10")),
    ]);
    let bids_update = vec![
        ExchangeLevel::from_strs("test2", "99", "10"),
        ExchangeLevel::from_strs("test2", "98", "10"),
        ExchangeLevel::from_strs("test2", "96", "10"),
    ];
    bids.update_side(bids_update);
    let level1 = bids.level(0);
    assert_eq!(level1.price, dec("99"));
    assert_eq!(level1.total_amount().unwrap(), dec("20"));
    let level2 = bids.level(1);
    assert_eq!(level2.price, dec("98"));
    assert_eq!(level2.total_amount().unwrap(), dec("20"));
    let level3 = bids.level(2);
    assert_eq!(level3.price, dec("97"));
    assert_eq!(level3.total_amount().unwrap(), dec("10"));
    let level4 = bids.level(3);
    assert_eq!(level4.price, dec("96"));
    assert_eq!(level4.total_amount().unwrap(), dec("10"));
}

#[test]
fn aggregator_test_merge_and_add_into_asks_side() {
    let mut asks = AggregateBookSide::new(Ranking::LessFirst, 10, vec![
        AggregateLevel::from_level(ExchangeLevel::from_strs("test1", "102", "10")),
        AggregateLevel::from_level(ExchangeLevel::from_strs("test1", "104", "10")),
        AggregateLevel::from_level(ExchangeLevel::from_strs("test1", "106", "10")),
    ]);
    let asks_update = vec![
        ExchangeLevel::from_strs("test2", "102", "10"),
        ExchangeLevel::from_strs("test2", "104", "10"),
        ExchangeLevel::from_strs("test2", "109", "10"),
    ];
    asks.update_side(asks_update);
    let level1 = asks.level(0);
    assert_eq!(level1.price, dec("102"));
    assert_eq!(level1.total_amount().unwrap(), dec("20"));
    let level2 = asks.level(1);
    assert_eq!(level2.price, dec("104"));
    assert_eq!(level2.total_amount().unwrap(), dec("20"));
    let level3 = asks.level(2);
    assert_eq!(level3.price, dec("106"));
    assert_eq!(level3.total_amount().unwrap(), dec("10"));
    let level4 = asks.level(3);
    assert_eq!(level4.price, dec("109"));
    assert_eq!(level4.total_amount().unwrap(), dec("10"));
}

#[test]
fn aggregator_test_update_and_add_into_asks_side() {
    let mut asks = AggregateBookSide::new(Ranking::LessFirst, 10, vec![
        AggregateLevel::from_level(ExchangeLevel::from_strs("test1", "102", "10")),
        AggregateLevel::from_level(ExchangeLevel::from_strs("test1", "104", "10")),
        AggregateLevel::from_level(ExchangeLevel::from_strs("test1", "106", "10")),
    ]);
    let asks_update = vec![
        ExchangeLevel::from_strs("test1", "102", "5"),
        ExchangeLevel::from_strs("test1", "104", "15"),
        ExchangeLevel::from_strs("test2", "109", "10"),
    ];
    asks.update_side(asks_update);
    let level1 = asks.level(0);
    assert_eq!(level1.price, dec("102"));
    assert_eq!(level1.total_amount().unwrap(), dec("5"));
    let level2 = asks.level(1);
    assert_eq!(level2.price, dec("104"));
    assert_eq!(level2.total_amount().unwrap(), dec("15"));
    let level3 = asks.level(2);
    assert_eq!(level3.price, dec("106"));
    assert_eq!(level3.total_amount().unwrap(), dec("10"));
    let level4 = asks.level(3);
    assert_eq!(level4.price, dec("109"));
    assert_eq!(level4.total_amount().unwrap(), dec("10"));
}

#[test]
fn aggregator_test_merge_update_and_add_into_asks_side() {
    let mut asks = AggregateBookSide::new(Ranking::LessFirst, 10, vec![
        AggregateLevel::from_level(ExchangeLevel::from_strs("test1", "102", "10")),
        AggregateLevel::from_level(ExchangeLevel::from_strs("test1", "104", "10")),
        AggregateLevel::from_level(ExchangeLevel::from_strs("test1", "106", "10")),
    ]);
    let asks_update = vec![
        ExchangeLevel::from_strs("test2", "102", "5"),
        ExchangeLevel::from_strs("test1", "104", "15"),
        ExchangeLevel::from_strs("test2", "109", "10"),
    ];
    asks.update_side(asks_update);
    let level1 = asks.level(0);
    assert_eq!(level1.price, dec("102"));
    assert_eq!(level1.total_amount().unwrap(), dec("15"));
    let level2 = asks.level(1);
    assert_eq!(level2.price, dec("104"));
    assert_eq!(level2.total_amount().unwrap(), dec("15"));
    let level3 = asks.level(2);
    assert_eq!(level3.price, dec("106"));
    assert_eq!(level3.total_amount().unwrap(), dec("10"));
    let level4 = asks.level(3);
    assert_eq!(level4.price, dec("109"));
    assert_eq!(level4.total_amount().unwrap(), dec("10"));
}

#[test]
fn test_update_into_bids_side_with_trimming() {
    let mut bids = AggregateBookSide::new(Ranking::GreaterFirst, 3, vec![
        AggregateLevel::from_level(ExchangeLevel::from_strs("test1", "99", "10")),
        AggregateLevel::from_level(ExchangeLevel::from_strs("test1", "98", "10")),
        AggregateLevel::from_level(ExchangeLevel::from_strs("test1", "97", "10")),
    ]);
    let bids_update = vec![
        ExchangeLevel::from_strs("test2", "99", "5"),
        ExchangeLevel::from_strs("test1", "98", "15"),
        ExchangeLevel::from_strs("test2", "96", "10"),
    ];
    bids.update_side(bids_update);
    assert_eq!(bids.len(), 3);
    let level1 = bids.level(0);
    assert_eq!(level1.price, dec("99"));
    assert_eq!(level1.total_amount().unwrap(), dec("15"));
    let level2 = bids.level(1);
    assert_eq!(level2.price, dec("98"));
    assert_eq!(level2.total_amount().unwrap(), dec("15"));
    let level3 = bids.level(2);
    assert_eq!(level3.price, dec("97"));
    assert_eq!(level3.total_amount().unwrap(), dec("10"));
}

#[test]
fn test_update_into_asks_side_with_trimming() {
    let mut asks = AggregateBookSide::new(Ranking::LessFirst, 3, vec![
        AggregateLevel::from_level(ExchangeLevel::from_strs("test1", "102", "10")),
        AggregateLevel::from_level(ExchangeLevel::from_strs("test1", "104", "10")),
        AggregateLevel::from_level(ExchangeLevel::from_strs("test1", "106", "10")),
    ]);
    let asks_update = vec![
        ExchangeLevel::from_strs("test2", "102", "5"),
        ExchangeLevel::from_strs("test1", "104", "15"),
        ExchangeLevel::from_strs("test2", "109", "10"),
    ];
    asks.update_side(asks_update);
    assert_eq!(asks.len(), 3);
    let level1 = asks.level(0);
    assert_eq!(level1.price, dec("102"));
    assert_eq!(level1.total_amount().unwrap(), dec("15"));
    let level2 = asks.level(1);
    assert_eq!(level2.price, dec("104"));
    assert_eq!(level2.total_amount().unwrap(), dec("15"));
    let level3 = asks.level(2);
    assert_eq!(level3.price, dec("106"));
    assert_eq!(level3.total_amount().unwrap(), dec("10"));
}

#[test]
fn aggregator_test_book_amounts() {
    let mut book = AggregateBook {
        bids: AggregateBookSide::new(Ranking::GreaterFirst, 10,vec![
            AggregateLevel::from_level(ExchangeLevel::from_strs("test1", "99", "10")),
            AggregateLevel::from_level(ExchangeLevel::from_strs("test2", "97", "10")),
            AggregateLevel::from_level(ExchangeLevel::from_strs("test1", "95", "10")),
        ]),
        asks: AggregateBookSide::new(Ranking::LessFirst, 10, vec![
            AggregateLevel::from_level(ExchangeLevel::from_strs("test1", "102", "10")),
            AggregateLevel::from_level(ExchangeLevel::from_strs("test1", "104", "10")),
            AggregateLevel::from_level(ExchangeLevel::from_strs("test2", "106", "10")),
        ]),
    };
    let book_update1 = BookUpdate {
        exchange_code: "test1",
        bids: vec![
            ExchangeLevel::from_strs("test1", "100", "10"),
            ExchangeLevel::from_strs("test1", "99", "10"),
            ExchangeLevel::from_strs("test1", "97", "5"),
            ExchangeLevel::from_strs("test1", "95", "5"),
        ],
        asks: vec![
            ExchangeLevel::from_strs("test1", "102", "10"),
            ExchangeLevel::from_strs("test1", "103", "10"),
            ExchangeLevel::from_strs("test1", "104", "10"),
            ExchangeLevel::from_strs("test1", "105", "10"),
            ExchangeLevel::from_strs("test1", "106", "5"),
        ],
    };
    book.update(book_update1);
    let book_update2 = BookUpdate {
        exchange_code: "test2",
        bids: vec![
            ExchangeLevel::from_strs("test2", "100", "20"),
            ExchangeLevel::from_strs("test2", "97", "15"),
            ExchangeLevel::from_strs("test2", "94", "10"),
        ],
        asks: vec![
            ExchangeLevel::from_strs("test2", "102", "10"),
            ExchangeLevel::from_strs("test2", "105", "10"),
            ExchangeLevel::from_strs("test2", "106", "10"),
            ExchangeLevel::from_strs("test2", "107", "10"),
        ],
    };
    book.update(book_update2);

    assert_eq!(book.bids.len(), 5);
    let bid1 = book.bids.level(0);
    assert_eq!(bid1.price, dec("100"));
    assert_eq!(bid1.total_amount().unwrap(), dec("30"));
    let bid2 = book.bids.level(1);
    assert_eq!(bid2.price, dec("99"));
    assert_eq!(bid2.total_amount().unwrap(), dec("10"));
    let bid3 = book.bids.level(2);
    assert_eq!(bid3.price, dec("97"));
    assert_eq!(bid3.total_amount().unwrap(), dec("20"));
    let bid4 = book.bids.level(3);
    assert_eq!(bid4.price, dec("95"));
    assert_eq!(bid4.total_amount().unwrap(), dec("5"));
    let bid5 = book.bids.level(4);
    assert_eq!(bid5.price, dec("94"));
    assert_eq!(bid5.total_amount().unwrap(), dec("10"));

    assert_eq!(book.asks.len(), 6);
    let ask1 = book.asks.level(0);
    assert_eq!(ask1.price, dec("102"));
    assert_eq!(ask1.total_amount().unwrap(), dec("20"));
    let ask2 = book.asks.level(1);
    assert_eq!(ask2.price, dec("103"));
    assert_eq!(ask2.total_amount().unwrap(), dec("10"));
    let ask3 = book.asks.level(2);
    assert_eq!(ask3.price, dec("104"));
    assert_eq!(ask3.total_amount().unwrap(), dec("10"));
    let ask4 = book.asks.level(3);
    assert_eq!(ask4.price, dec("105"));
    assert_eq!(ask4.total_amount().unwrap(), dec("20"));
    let ask5 = book.asks.level(4);
    assert_eq!(ask5.price, dec("106"));
    assert_eq!(ask5.total_amount().unwrap(), dec("15"));
    let ask6 = book.asks.level(5);
    assert_eq!(ask6.price, dec("107"));
    assert_eq!(ask6.total_amount().unwrap(), dec("10"));
}

#[test]
fn test_book_best_bids() {
    let book = AggregateBook {
        bids: AggregateBookSide::new(Ranking::GreaterFirst, 3, vec![
            AggregateLevel::from_levels(vec![
                ExchangeLevel::from_strs("test1", "101", "5"),
                ExchangeLevel::from_strs("test2", "101", "10"),
            ]),
            AggregateLevel::from_levels(vec![
                ExchangeLevel::from_strs("test2", "100", "10")
            ]),
            AggregateLevel::from_levels(vec![
                ExchangeLevel::from_strs("test1", "99", "10")
            ]),
        ]),
        asks: AggregateBookSide::new(Ranking::LessFirst, 3, vec![]),
    };
    let best_bids = book.best_bids();
    assert_eq!(best_bids, vec![
        ExchangeLevel::from_strs("test2", "101", "10"),
        ExchangeLevel::from_strs("test1", "101", "5"),
        ExchangeLevel::from_strs("test2", "100", "10"),
    ]);
}

#[test]
fn test_book_best_asks() {
    let book = AggregateBook {
        bids: AggregateBookSide::new(Ranking::GreaterFirst, 3, vec![]),
        asks: AggregateBookSide::new(Ranking::LessFirst, 3, vec![
            AggregateLevel::from_levels(vec![
                ExchangeLevel::from_strs("test1", "99", "5"),
                ExchangeLevel::from_strs("test2", "99", "10"),
                ExchangeLevel::from_strs("test3", "99", "2"),
            ]),
            AggregateLevel::from_levels(vec![
                ExchangeLevel::from_strs("test2", "100", "10")
            ]),
            AggregateLevel::from_levels(vec![
                ExchangeLevel::from_strs("test1", "101", "10")
            ]),
        ]),
    };
    let best_asks = book.best_asks();
    assert_eq!(best_asks, vec![
        ExchangeLevel::from_strs("test2", "99", "10"),
        ExchangeLevel::from_strs("test1", "99", "5"),
        ExchangeLevel::from_strs("test3", "99", "2"),
    ]);
}
