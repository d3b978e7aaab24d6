use cactpot::payout::payout_for_sum;

#[test]
fn test_payout_for_sum_known() {
    assert_eq!(payout_for_sum(6), 10000);
    assert_eq!(payout_for_sum(7), 36);
    assert_eq!(payout_for_sum(24), 3600);
}

#[test]
fn test_payout_for_sum_unknown() {
    assert_eq!(payout_for_sum(5), 0);
    assert_eq!(payout_for_sum(25), 0);
}

#[test]
fn payout_table_named_values() {
    assert_eq!(payout_for_sum(6), 10000);
    assert_eq!(payout_for_sum(24), 3600);
    assert_eq!(payout_for_sum(7), 36);
    assert_eq!(payout_for_sum(15), 180);
    assert_eq!(payout_for_sum(18), 119);
}

#[test]
fn payout_table_whole_range() {
    let expected: [u32; 19] = [
        10000, 36, 720, 360, 80, 252, 108, 72, 54, 180, 72, 180, 119, 36, 306, 1080, 144, 1800, 3600,
    ];
    for (i, want) in expected.iter().enumerate() {
        let s = 6 + i as u8;
        assert_eq!(payout_for_sum(s), *want, "sum {}", s);
        assert!(payout_for_sum(s) > 0);
    }
}

#[test]
fn payout_zero_off_table() {
    for s in 0u8..6 {
        assert_eq!(payout_for_sum(s), 0);
    }
    for s in 25u8..=255 {
        assert_eq!(payout_for_sum(s), 0);
    }
}
