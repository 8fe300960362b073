use rtsched::clock::Clock;

#[test]
fn ticks_per_ms_from_frequency() {
    let mut c = Clock::new();
    assert_eq!(c.sys_clk_freq(), 0);
    assert_eq!(c.ticks_per_ms(), 0);
    c.update_sys_clk_freq(48_000_000);
    assert_eq!(c.sys_clk_freq(), 48_000_000);
    assert_eq!(c.ticks_per_ms(), 48_000);
    c.update_sys_clk_freq(1_999);
    assert_eq!(c.ticks_per_ms(), 1);
}
