use openquanter::data::bitemporal::{Bitemporal, Version};
use openquanter::types::Nanos;

fn day(n: i64) -> Nanos {
    Nanos::from_secs(n * 86_400)
}

/// A rate that applied from March, plus a correction to it that
/// only became known in May.
fn corrected() -> Bitemporal<i64> {
    Bitemporal::new(vec![
        Version::immediate(day(0), 40),
        Version::new(day(60), day(60), 50),
        // In May we learned the March-onward figure was wrong.
        Version::new(day(60), day(120), 55),
    ])
}

#[test]
fn a_run_from_april_still_answers_as_april_did() {
    // The property the whole module exists for: replaying an old
    // run today must not pick up a correction that did not exist
    // when it ran.
    let b = corrected();
    assert_eq!(b.as_believed_at(day(90), day(90)), Some(&50));
    assert_eq!(
        b.as_believed_at(day(90), day(200)),
        Some(&55),
        "a run today sees the correction"
    );
}

#[test]
fn valid_time_selects_the_regime_in_force() {
    let b = corrected();
    assert_eq!(b.current(day(30)), Some(&40));
    assert_eq!(b.current(day(90)), Some(&55));
}

#[test]
fn before_anything_was_known_the_answer_is_none() {
    let b = corrected();
    assert_eq!(b.as_believed_at(day(-1), day(1_000)), None);
    assert_eq!(
        b.as_believed_at(day(90), day(-1)),
        None,
        "nothing was known yet, which is an answer"
    );
}

#[test]
fn retroactive_corrections_are_detectable() {
    assert!(corrected().has_retroactive_corrections());

    let clean = Bitemporal::new(vec![
        Version::immediate(day(0), 40),
        Version::immediate(day(60), 50),
    ]);
    assert!(!clean.has_retroactive_corrections());
}

#[test]
fn insertion_order_does_not_change_answers() {
    let forward = corrected();
    let mut backward: Bitemporal<i64> = Bitemporal::default();
    for v in corrected().versions().iter().rev() {
        backward.insert(*v);
    }
    for d in [0, 30, 60, 90, 120, 200] {
        for k in [0, 60, 120, 200] {
            assert_eq!(
                forward.as_believed_at(day(d), day(k)),
                backward.as_believed_at(day(d), day(k)),
                "valid={d} known={k}"
            );
        }
    }
}

#[test]
fn an_empty_store_knows_nothing() {
    let b: Bitemporal<i64> = Bitemporal::default();
    assert!(b.is_empty());
    assert!(b.current(day(1)).is_none());
}
