use openquanter::venue::book::{Applied, Book, SequenceError, Side};
use openquanter::venue::depth::{DepthUpdate, Level};

fn level(price: i64, qty: i64) -> Level {
    Level { price, qty }
}

fn update(first: u64, final_: u64, prev: Option<u64>, bids: Vec<Level>) -> DepthUpdate {
    DepthUpdate {
        event_ms: 0,
        first_id: first,
        final_id: final_,
        prev_final_id: prev,
        bids,
        asks: Vec::new(),
    }
}

#[test]
fn sides_order_best_first() {
    let mut bids = Side::bids();
    for p in [100, 102, 101] {
        bids.apply(level(p, 1));
    }
    assert_eq!(
        bids.levels().iter().map(|l| l.price).collect::<Vec<_>>(),
        vec![102, 101, 100]
    );

    let mut asks = Side::asks();
    for p in [200, 198, 199] {
        asks.apply(level(p, 1));
    }
    assert_eq!(
        asks.levels().iter().map(|l| l.price).collect::<Vec<_>>(),
        vec![198, 199, 200]
    );
}

#[test]
fn a_zero_quantity_removes_a_level() {
    let mut bids = Side::bids();
    bids.apply(level(100, 5));
    bids.apply(level(101, 5));
    assert_eq!(bids.depth(), 2);
    bids.apply(level(100, 0));
    assert_eq!(bids.levels(), &[level(101, 5)]);
}

#[test]
fn removing_a_level_that_was_never_there_is_not_an_error() {
    // Normal: the venue reports the removal whether or not the
    // snapshot this book started from happened to include it.
    let mut bids = Side::bids();
    bids.apply(level(100, 0));
    assert_eq!(bids.depth(), 0);
}

#[test]
fn updates_before_the_snapshot_are_already_reflected_in_it() {
    let mut book = Book::new();
    book.install_snapshot(1_000, &[level(100, 1)], &[level(101, 1)]);
    assert_eq!(
        book.apply(&update(900, 950, None, vec![level(99, 7)])),
        Ok(Applied::AlreadyInSnapshot)
    );
    // and did not touch the book
    assert_eq!(book.bids().depth(), 1);
}

#[test]
fn the_first_update_must_straddle_the_snapshot() {
    let mut book = Book::new();
    book.install_snapshot(1_000, &[level(100, 1)], &[level(101, 1)]);

    // Starts after snapshot+1: messages in between were missed.
    assert_eq!(
        book.apply(&update(1_005, 1_010, None, vec![])),
        Err(SequenceError::DoesNotStraddleSnapshot {
            snapshot: 1_000,
            first_id: 1_005,
            final_id: 1_010
        })
    );

    // Straddling is accepted.
    assert_eq!(
        book.apply(&update(998, 1_002, None, vec![level(100, 3)])),
        Ok(Applied::Updated)
    );
    assert_eq!(book.bids().best(), Some(level(100, 3)));
}

#[test]
fn a_broken_chain_is_refused_and_leaves_the_book_untouched() {
    let mut book = Book::new();
    book.install_snapshot(1_000, &[level(100, 1)], &[level(101, 1)]);
    book.apply(&update(1_000, 1_001, None, vec![level(100, 2)]))
        .expect("straddles");

    // pu says it follows 1_500, but the book is at 1_001.
    let err = book
        .apply(&update(1_501, 1_502, Some(1_500), vec![level(100, 9)]))
        .expect_err("gap must be refused");
    assert_eq!(
        err,
        SequenceError::Gap {
            expected: 1_001,
            found: 1_500
        }
    );
    assert_eq!(
        book.bids().best(),
        Some(level(100, 2)),
        "a refused update must not have been partially applied"
    );
}

#[test]
fn a_snapshot_resets_rather_than_merges() {
    // After a gap the book's state is unknown, and merging into
    // unknown state produces a book that looks right and is not.
    let mut book = Book::new();
    book.install_snapshot(1_000, &[level(100, 1), level(99, 1)], &[level(101, 1)]);
    book.install_snapshot(2_000, &[level(50, 4)], &[level(51, 4)]);
    assert_eq!(book.bids().levels(), &[level(50, 4)]);
    assert_eq!(book.asks().levels(), &[level(51, 4)]);
}

#[test]
fn a_snapshot_resets_the_applied_count() {
    // `applied()` reports updates since the last snapshot, so a
    // resynchronization has to start the count again — otherwise
    // "how far did this book get before it broke" is unanswerable.
    let mut book = Book::new();
    book.install_snapshot(1_000, &[level(100, 1)], &[level(101, 1)]);
    book.apply(&update(1_000, 1_001, None, vec![level(100, 2)]))
        .expect("straddles");
    assert_eq!(book.applied(), 1);

    book.install_snapshot(2_000, &[level(100, 1)], &[level(101, 1)]);
    assert_eq!(book.applied(), 0);
}

#[test]
fn a_first_id_of_zero_reports_a_gap_rather_than_overflowing() {
    // `first_id` is venue data. Without `pu` the fallback derives
    // the previous id from it, and a zero must produce a gap report
    // rather than an underflow.
    let mut book = Book::new();
    book.install_snapshot(0, &[level(100, 1)], &[level(101, 1)]);
    book.apply(&update(0, 1, None, vec![level(100, 2)]))
        .expect("straddles");
    assert_eq!(
        book.apply(&update(0, 1, None, vec![])),
        Err(SequenceError::Gap {
            expected: 1,
            found: 0
        })
    );
}

#[test]
fn updates_without_a_snapshot_are_refused() {
    let mut book = Book::new();
    assert_eq!(
        book.apply(&update(1, 2, None, vec![])),
        Err(SequenceError::NoSnapshot)
    );
}

#[test]
fn a_crossed_book_is_detectable() {
    let mut book = Book::new();
    book.install_snapshot(1, &[level(100, 1)], &[level(101, 1)]);
    assert!(!book.is_crossed());
    assert!(book.is_ready());

    // An ask below the best bid: only possible through a
    // reconstruction error, and worth catching as one.
    book.install_snapshot(2, &[level(100, 1)], &[level(99, 1)]);
    assert!(book.is_crossed());
}

#[test]
fn a_sweep_walks_levels_in_order_and_stops_when_filled() {
    let mut asks = Side::asks();
    for l in [level(102, 400), level(100, 100), level(101, 200)] {
        asks.apply(l);
    }

    // 100 at 100, 200 at 101, 200 of the 400 at 102.
    let swept = asks.sweep(500);
    assert_eq!(swept.taken, 500);
    assert_eq!(swept.cost, 100 * 100 + 200 * 101 + 200 * 102);
    assert!(!swept.exhausted);

    // The book is a question, not an execution: asking twice gives
    // the same answer.
    assert_eq!(asks.sweep(500), swept);
}

#[test]
fn a_sweep_that_fits_in_the_best_level_never_touches_a_worse_price() {
    let mut asks = Side::asks();
    asks.apply(level(100, 100));
    asks.apply(level(101, 100));

    let swept = asks.sweep(60);
    assert_eq!(swept.taken, 60);
    assert_eq!(swept.cost, 60 * 100);
    assert!(!swept.exhausted);
}

/// Running out of book is reported, never papered over with the
/// last price held. The quantity that could not be taken is the
/// part whose cost this book does not know, and pricing it at the
/// deepest level present would understate it -- which is the
/// direction that flatters a backtest.
#[test]
fn a_sweep_deeper_than_the_book_says_so() {
    let mut asks = Side::asks();
    asks.apply(level(100, 100));
    asks.apply(level(101, 50));

    let swept = asks.sweep(1_000);
    assert!(swept.exhausted);
    assert_eq!(swept.taken, 150);
    assert_eq!(swept.cost, 100 * 100 + 50 * 101);
}

#[test]
fn an_empty_side_takes_nothing_and_is_exhausted() {
    let swept = Side::asks().sweep(10);
    assert_eq!(swept.taken, 0);
    assert_eq!(swept.cost, 0);
    assert!(swept.exhausted);

    // Asking for nothing is answerable by an empty book: nothing
    // is what it costs, and it is not a shortfall.
    let none = Side::asks().sweep(0);
    assert_eq!(none.taken, 0);
    assert!(!none.exhausted);
}

#[test]
fn bids_sweep_from_the_highest_price_down() {
    let mut bids = Side::bids();
    for l in [level(98, 100), level(100, 100), level(99, 100)] {
        bids.apply(l);
    }

    let swept = bids.sweep(150);
    assert_eq!(swept.cost, 100 * 100 + 50 * 99);
}

/// A tick price near 1e9 against a lot count near 1e10 overflows
/// i64 at the second level. In i64 that wraps negative, and a
/// negative cost is a fill that paid the taker.
/// The point of the consuming half: two orders against one book
/// must not both be priced as though they were first.
#[test]
fn taking_leaves_the_next_taker_a_worse_book() {
    let mut asks = Side::asks();
    asks.apply(level(100, 100));
    asks.apply(level(101, 100));
    asks.apply(level(102, 100));

    let first = asks.take(150);
    assert_eq!(first.cost, 100 * 100 + 50 * 101);

    // 50 left at 101, then into 102 -- not back at the touch.
    let second = asks.take(100);
    assert_eq!(second.cost, 50 * 101 + 50 * 102);

    assert_eq!(asks.depth(), 1);
    assert_eq!(asks.best(), Some(level(102, 50)));
}

#[test]
fn taking_a_whole_level_removes_it() {
    let mut asks = Side::asks();
    asks.apply(level(100, 100));
    asks.apply(level(101, 100));

    asks.take(100);
    assert_eq!(asks.depth(), 1);
    assert_eq!(asks.best(), Some(level(101, 100)));
}

#[test]
fn taking_more_than_the_book_holds_empties_it_and_says_so() {
    let mut asks = Side::asks();
    asks.apply(level(100, 100));

    let swept = asks.take(500);
    assert!(swept.exhausted);
    assert_eq!(swept.taken, 100);
    assert_eq!(asks.depth(), 0);

    // And an empty book still answers, rather than panicking on the
    // drain range.
    let again = asks.take(500);
    assert_eq!(again.taken, 0);
    assert!(again.exhausted);
}

#[test]
fn a_sweep_large_enough_to_overflow_i64_does_not() {
    let mut asks = Side::asks();
    asks.apply(level(1_000_000_000, 10_000_000_000));
    asks.apply(level(1_000_000_001, 10_000_000_000));

    let swept = asks.sweep(20_000_000_000);
    assert!(swept.cost > i128::from(i64::MAX));
    assert_eq!(
        swept.cost,
        1_000_000_000_i128 * 10_000_000_000 + 1_000_000_001_i128 * 10_000_000_000
    );
}

#[test]
fn no_other_way_of_taking_as_much_is_better_than_a_sweep() {
    let stood = [(100i64, 3i64), (101, 2), (103, 4)];
    let mut asks = Side::asks();
    let mut bids = Side::bids();
    for (price, qty) in stood {
        asks.apply(level(price, qty));
        bids.apply(level(price, qty));
    }
    for want in 0..=10 {
        let bought = asks.sweep(want);
        let sold = bids.sweep(want);
        let mut ways = 0;
        for a in 0..=stood[0].1 {
            for b in 0..=stood[1].1 {
                for c in 0..=stood[2].1 {
                    if a + b + c == bought.taken {
                        let cost = (a * stood[0].0 + b * stood[1].0 + c * stood[2].0) as i128;
                        assert!(bought.cost <= cost && cost <= sold.cost);
                        ways += 1;
                    }
                }
            }
        }
        assert!(ways > 0);
        assert_eq!(bought.taken, want.min(9));
        assert_eq!(sold.taken, bought.taken);
    }
}

#[test]
fn a_book_can_be_kept_aside() {
    let mut bids = Side::bids();
    bids.apply(level(100, 5));
    let kept = bids.clone();
    bids.apply(level(101, 1));
    assert_eq!(kept.sweep(9).cost, 500);
    assert_ne!(kept, bids);
}
