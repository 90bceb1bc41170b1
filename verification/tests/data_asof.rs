use openquanter::data::asof::{AsOf, Series, Timed, Timeline};
use openquanter::types::Nanos;

fn series() -> Series<i64> {
    Series::by_arrival(vec![
        Timed::local(Nanos(10), 100),
        Timed::local(Nanos(20), 200),
        Timed::local(Nanos(30), 300),
    ])
}

#[test]
fn strict_refuses_a_record_stamped_at_the_decision_instant() {
    // The whole point of the module, as one assertion.
    let s = series();
    assert_eq!(s.as_of(Nanos(20), AsOf::Strict).map(|r| r.value), Some(100));
    assert_eq!(
        s.as_of(Nanos(20), AsOf::Inclusive).map(|r| r.value),
        Some(200),
        "inclusive is for after-the-fact reconstruction only"
    );
}

#[test]
fn nothing_known_yet_is_none_not_the_first_record() {
    let s = series();
    assert!(s.known_at(Nanos(10)).is_none());
    assert!(s.known_at(Nanos(0)).is_none());
    assert_eq!(s.known_at(Nanos(11)).map(|r| r.value), Some(100));
}

#[test]
fn queries_past_the_end_hold_the_last_value() {
    let s = series();
    assert_eq!(s.known_at(Nanos(1_000)).map(|r| r.value), Some(300));
}

#[test]
fn arrival_and_event_timelines_disagree_where_it_matters() {
    // A funding rate stamped 08:00 that arrived at 08:00.4 was not
    // knowable at 08:00.2. Joining on event time would grant the
    // strategy foresight; the two timelines must give different
    // answers, and the arrival one must be the conservative answer.
    let record = Timed::new(Nanos(800), Nanos(804), 42);
    let by_arrival = Series::new(vec![record], Timeline::Arrival);
    let by_event = Series::new(vec![record], Timeline::Event);

    let decision = Nanos(802);
    assert!(
        by_arrival.known_at(decision).is_none(),
        "it had not arrived yet"
    );
    assert_eq!(
        by_event.known_at(decision).map(|r| r.value),
        Some(42),
        "event time would have handed it over early"
    );
}

#[test]
fn unsorted_input_is_ordered_on_the_queried_timeline() {
    let s = Series::by_arrival(vec![
        Timed::local(Nanos(30), 300),
        Timed::local(Nanos(10), 100),
        Timed::local(Nanos(20), 200),
    ]);
    assert_eq!(s.known_at(Nanos(25)).map(|r| r.value), Some(200));
}

#[test]
fn a_join_produces_one_answer_per_query() {
    let s = series();
    let queries = vec![Nanos(5), Nanos(15), Nanos(25), Nanos(35)];
    assert_eq!(
        s.join(&queries, AsOf::Strict),
        vec![None, Some(100), Some(200), Some(300)]
    );
}

#[test]
fn an_empty_series_knows_nothing() {
    let s: Series<i64> = Series::default();
    assert!(s.is_empty());
    assert!(s.known_at(Nanos(100)).is_none());
}

#[test]
fn ties_on_arrival_resolve_to_the_last_inserted() {
    // Simultaneous arrivals are possible at any clock resolution.
    // The answer must be deterministic; sort stability makes it the
    // later-inserted record, which is the one a stream would have
    // processed second.
    let s = Series::by_arrival(vec![Timed::local(Nanos(10), 1), Timed::local(Nanos(10), 2)]);
    assert_eq!(s.known_at(Nanos(11)).map(|r| r.value), Some(2));
}
