use vp9_parser::inv_recenter_nonneg;
use vp9_parser::inv_remap_prob;

#[test]
fn recenter_values() {
    assert_eq!(inv_recenter_nonneg(3, 10), 8);
    assert_eq!(inv_recenter_nonneg(4, 10), 12);
    assert_eq!(inv_recenter_nonneg(0, 10), 10);
    assert_eq!(inv_recenter_nonneg(30, 10), 30);
    assert_eq!(inv_recenter_nonneg(21, 10), 21);
    assert_eq!(inv_recenter_nonneg(-3, 10), 11);
    assert_eq!(inv_recenter_nonneg(5, -1), 5);
}

#[test]
fn remap_values() {
    assert_eq!(inv_remap_prob(0, 128), 133);
    assert_eq!(inv_remap_prob(20, 10), 10);
    assert_eq!(inv_remap_prob(0, 0), 8);
    assert_eq!(inv_remap_prob(254, 255), 2);
    assert_eq!(inv_remap_prob(100, 200), 157);
    assert_eq!(inv_remap_prob(5, 1), 73);
    assert_eq!(inv_remap_prob(19, 127), 255);
    assert_eq!(inv_remap_prob(50, 128), 112);
    assert_eq!(inv_remap_prob(254, 0), 254);
}

#[test]
fn remap_never_gives_zero() {
    for d in 0..255u8 {
        for p in 0..=255u8 {
            assert!(inv_remap_prob(d, p) >= 1);
        }
    }
}
