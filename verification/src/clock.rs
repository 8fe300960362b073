//! System clock frequency and the tick rate derived from it.
use vstd::prelude::*;

verus! {

/// The system clock frequency in Hz, as the board configured it.
pub struct Clock {
    sys_clk_freq: u32,
}

impl Clock {
    /// The recorded frequency.
    pub closed spec fn spec_sys_clk_freq(&self) -> u32 {
        self.sys_clk_freq
    }

    /// A clock whose frequency is not configured yet (zero).
    pub fn new() -> (c: Self)
        ensures
            c.spec_sys_clk_freq() == 0,
    {
        Clock { sys_clk_freq: 0 }
    }

    /// The system clock frequency in Hz.
    pub fn sys_clk_freq(&self) -> (r: u32)
        ensures
            r == self.spec_sys_clk_freq(),
    {
        self.sys_clk_freq
    }

    /// Record a new system clock frequency.
    pub fn update_sys_clk_freq(&mut self, freq: u32)
        ensures
            final(self).spec_sys_clk_freq() == freq,
    {
        self.sys_clk_freq = freq;
    }

    /// SysTick ticks per millisecond: the frequency divided by 1000, rounded
    /// down.
    pub fn ticks_per_ms(&self) -> (r: u32)
        ensures
            r == self.spec_sys_clk_freq() / 1000,
    {
        self.sys_clk_freq / 1000
    }
}

} // verus!
