use clob::error::CLOBError;
use clob::twap::TWAPOracle;

#[test]
fn twap_clamp() {
    let mut o = TWAPOracle::new(100, 0);
    o.record(1, 1_000_000).unwrap();
    assert_eq!(o.last_observation, 1_000_000);
    o.record(2, 2_000_000).unwrap();
    assert_eq!(o.last_observation, 1_010_000);
    o.record(3, 1_005_000).unwrap();
    assert_eq!(o.last_observation, 1_005_000);
    assert_eq!(o.observation_aggregator, 1_000_000 + 1_010_000 + 1_005_000);
    assert_eq!(o.last_updated_slot, 3);
}

#[test]
fn twap_clamps_downward_and_weights_by_span() {
    let mut o = TWAPOracle::new(250, 0);
    o.record(10, 1_000_000).unwrap();
    assert_eq!(o.observation_aggregator, 10_000_000);
    o.record(14, 1).unwrap();
    assert_eq!(o.last_observation, 975_000);
    assert_eq!(o.observation_aggregator, 10_000_000 + 4 * 975_000);
}

#[test]
fn twap_ignores_stale_slots() {
    let mut o = TWAPOracle::new(100, 0);
    o.record(5, 1_000).unwrap();
    let before = o;
    o.record(5, 9_000).unwrap();
    o.record(4, 9_000).unwrap();
    assert_eq!(o, before);
    assert_eq!(o.observation(1_050), 1_010);
    assert_eq!(o.observation(900), 990);
}

#[test]
fn twap_aggregator_overflow_changes_nothing() {
    let mut o = TWAPOracle::new(100, 0);
    o.observation_aggregator = u128::MAX - 5;
    let before = o;
    assert_eq!(o.record(1, 10), Err(CLOBError::ArithmeticOverflow));
    assert_eq!(o, before);
}

#[test]
fn twap_downward_move_rounds_in_favour_of_the_band() {
    // 1 * 9900 / 10000 rounds down to 0: the move of 1 exceeds 1 * 100 / 10000.
    let mut o = TWAPOracle::new(100, 0);
    o.record(1, 1).unwrap();
    o.record(2, 0).unwrap();
    assert_eq!(o.last_observation, 0);
    // Where last * bps is a multiple of 10000 the move stays within it.
    let mut p = TWAPOracle::new(100, 0);
    p.record(1, 500).unwrap();
    p.record(2, 0).unwrap();
    assert_eq!(p.last_observation, 495);
}
