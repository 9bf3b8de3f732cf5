use streamstats::stats::{field_for_key, CurrentField, StatsCounter};

#[test]
fn test_field_for_key_mapping() {
    assert_eq!(field_for_key(&"lastPrice".to_string()), CurrentField::LastPrice);
    assert_eq!(field_for_key(&"lastQty".to_string()), CurrentField::LastQty);
    assert_eq!(field_for_key(&"volume".to_string()), CurrentField::TotalVolume);
    assert_eq!(field_for_key(&"amount".to_string()), CurrentField::TotalAmount);
    assert_eq!(field_for_key(&"bidPrice".to_string()), CurrentField::MaxBidPrice);
    assert_eq!(field_for_key(&"askPrice".to_string()), CurrentField::MinAskPrice);
    assert_eq!(field_for_key(&"total_trade_count".to_string()), CurrentField::TotalTradeCount);
    assert_eq!(field_for_key(&"symbol".to_string()), CurrentField::Unknown);
    assert_eq!(field_for_key(&"".to_string()), CurrentField::Unknown);
}

#[test]
fn test_counter_accumulates_only_under_trade_count() {
    let mut s = StatsCounter::new();
    assert_eq!(s.total_trade_count(), 0);
    assert_eq!(s.current_field(), CurrentField::Unknown);

    s.note_count(5);
    assert_eq!(s.total_trade_count(), 0);

    s.note_key(&"total_trade_count".to_string());
    assert_eq!(s.current_field(), CurrentField::TotalTradeCount);
    s.note_count(5);
    s.note_count(7);
    assert_eq!(s.total_trade_count(), 12);

    s.note_key(&"volume".to_string());
    s.note_count(100);
    assert_eq!(s.total_trade_count(), 12);
}

#[test]
fn test_counter_saturates() {
    let mut s = StatsCounter::new();
    s.note_key(&"total_trade_count".to_string());
    s.note_count(u64::MAX - 1);
    s.note_count(5);
    assert_eq!(s.total_trade_count(), u64::MAX);
    s.note_count(1);
    assert_eq!(s.total_trade_count(), u64::MAX);
}
