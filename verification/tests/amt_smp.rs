use asb::amt_smp::AMTCounter;

#[test]
fn amt_counter_default_and_clone() {
    let c = AMTCounter::default();
    let _copy = c.clone();
}
