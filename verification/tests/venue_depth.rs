use openquanter::venue::depth::{parse_depth, parse_fixed, Level, ParseError, Scales};

#[test]
fn parses_decimals_exactly() {
    assert_eq!(parse_fixed("63090.10", 2), Ok(6_309_010));
    assert_eq!(parse_fixed("63090", 2), Ok(6_309_000));
    assert_eq!(parse_fixed("0.01", 2), Ok(1));
    assert_eq!(parse_fixed("-1.25", 2), Ok(-125));
    assert_eq!(parse_fixed("1.5", 2), Ok(150));
    // Trailing zeros are not extra precision.
    assert_eq!(parse_fixed("1.500", 2), Ok(150));
    assert_eq!(parse_fixed("0", 3), Ok(0));
}

#[test]
fn a_price_that_does_not_fit_the_scale_is_refused_not_rounded() {
    // The whole reason this returns an error: rounding changes
    // which side of a limit a price falls on, and the caller cannot
    // tell it happened.
    assert_eq!(
        parse_fixed("1.005", 2),
        Err(ParseError::TooPrecise {
            text: "1.005".to_string(),
            scale: 2
        })
    );
}

#[test]
fn rejects_what_it_cannot_read_rather_than_guessing() {
    for bad in ["", "abc", "1.2.3", "1e5", " 1.0", "1,5", "-"] {
        assert!(
            matches!(parse_fixed(bad, 2), Err(ParseError::BadNumber(_))),
            "{bad:?} should not parse"
        );
    }
}

#[test]
fn float_would_have_lost_these() {
    // Not every decimal survives a round trip through f64. "0.29"
    // becomes 28 cents, "0.57" becomes 56. The loss is a single
    // tick, it is silent, and it lands on the number that decides
    // whether a limit order filled.
    //
    // Some prices happen to be exact in binary, so this is checked
    // rather than reasoned about: the failures are not where intuition
    // puts them.
    for (text, expected) in [("0.29", 29_i64), ("0.57", 57), ("1.13", 113)] {
        assert_eq!(parse_fixed(text, 2), Ok(expected));

        #[allow(clippy::cast_possible_truncation)]
        let via_float = (text.parse::<f64>().expect("float") * 100.0) as i64;
        assert_ne!(
            via_float, expected,
            "{text} happens to survive f64; pick another for this test"
        );
    }
}

const SAMPLE: &[u8] = br#"{"e":"depthUpdate","E":1786780800123,"T":1786780800120,"s":"BTCUSDT","U":100,"u":110,"pu":99,"b":[["63090.10","1.500"],["63089.00","0"]],"a":[["63091.20","0.250"]]}"#;

#[test]
fn parses_a_depth_update() {
    let u = parse_depth(SAMPLE, Scales::default()).expect("parses");
    assert_eq!(u.event_ms, 1_786_780_800_123);
    assert_eq!(
        (u.first_id, u.final_id, u.prev_final_id),
        (100, 110, Some(99))
    );
    assert_eq!(
        u.bids,
        vec![
            Level {
                price: 6_309_010,
                qty: 1_500
            },
            Level {
                price: 6_308_900,
                qty: 0
            },
        ]
    );
    assert_eq!(
        u.asks,
        vec![Level {
            price: 6_309_120,
            qty: 250
        }]
    );
}

#[test]
fn a_zero_quantity_survives_parsing() {
    // It is a removal instruction, not noise. Filtering it here
    // would leave stale levels in every reconstructed book.
    let u = parse_depth(SAMPLE, Scales::default()).expect("parses");
    assert!(u.bids.iter().any(|l| l.qty == 0));
}

#[test]
fn an_empty_side_is_not_an_error() {
    let payload =
        br#"{"e":"depthUpdate","E":1,"U":1,"u":2,"pu":0,"b":[],"a":[["1.00","1.000"]]}"#;
    let u = parse_depth(payload, Scales::default()).expect("parses");
    assert!(u.bids.is_empty());
    assert_eq!(u.asks.len(), 1);
}

#[test]
fn rejects_messages_that_are_not_depth_updates() {
    assert_eq!(
        parse_depth(br#"{"e":"trade","E":1}"#, Scales::default()),
        Err(ParseError::NotDepth)
    );
}

#[test]
fn a_message_cut_off_inside_an_array_is_not_guessed_at() {
    let cut: [&[u8]; 4] = [
        br#"{"e":"depthUpdate","E":1,"U":1,"u":2,"pu":0,"b":[["1.00","1.000"]"#,
        br#"{"e":"depthUpdate","E":1,"U":1,"u":2,"pu":0,"b":[["1.00","1.0"#,
        br#"{"e":"depthUpdate","E":1,"U":1,"u":2,"pu":0,"b":["#,
        br#"{"e":"depthUpdate","E":1,"U":1,"u":2,"pu":0,"b":[],"a":[["1.00","1.000"],"#,
    ];
    for payload in cut {
        assert_eq!(
            parse_depth(payload, Scales::default()),
            Err(ParseError::MissingField("array"))
        );
    }
    let whole = br#"{"e":"depthUpdate","E":1,"U":1,"u":2,"pu":0,"b":[["1.00","1.000"]]}"#;
    assert_eq!(parse_depth(whole, Scales::default()).expect("whole").bids.len(), 1);
}
