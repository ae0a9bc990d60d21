use dabengine::examples::one_long_multi_three;
use dabengine::game::{CPosMove, Position, Side};

#[test]
fn test_olmt_indep() {
    let mut pos = one_long_multi_three(2, 5);
    assert_eq!(14, pos.legal_moves().len());
    // The repeated components are independent of each other
    pos.make_move(CPosMove::new(1, 0, 0, Side::Right));
    assert_eq!(13, pos.legal_moves().len());
}
