use derp::shared::{COUNTER_AT, COUNTER_OFFSET, PRIVATE_SIZE};

#[test]
fn stubs_can_reach_the_counter() {
    assert_eq!(PRIVATE_SIZE + COUNTER_AT, u64::from(COUNTER_OFFSET));
}
