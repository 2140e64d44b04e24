//! Board description for the STM32 Nucleo-64 F446RE: memory layout, flash
//! storage region, identification strings, and timing constants. Pin and
//! peripheral initialization is hardware work and lives outside this
//! library.

use vstd::prelude::*;

verus! {

/// Hook for registering board-specific interrupt handlers.
pub trait InterruptHandlers {
    /// Register all MCU-specific interrupt handlers.
    fn setup();
}

/// Configuration constants of the Nucleo-64 F446RE board.
pub struct BoardConfig;

impl BoardConfig {
    /// Start address of RAM, for stack usage reporting.
    pub const RAM_START: u32 = 0x20000000;

    /// End address of RAM: 128 KB of SRAM.
    pub const RAM_END: u32 = 0x20020000;

    /// Watchdog timeout in microseconds.
    pub const WATCHDOG_TIMEOUT_US: u32 = 1_000_000;

    /// Start of the flash storage region: sector 6, 256 KB from the base.
    pub const FLASH_STORAGE_START: u32 = 0x08040000;

    /// End of the flash storage region: 384 KB from the base.
    pub const FLASH_STORAGE_END: u32 = 0x08060000;

    /// Size of the storage sector: 128 KB.
    pub const FLASH_STORAGE_SIZE: usize = 128 * 1024;

    pub const BOARD_NAME: &'static str = "STM32 Nucleo-64 F446RE";

    pub const MCU_NAME: &'static str = "STM32F446RE";

    pub const FLASH_SIZE_KB: u32 = 512;

    pub const RAM_SIZE_KB: u32 = 128;

    pub const LED_PIN_NAME: &'static str = "PA5";

    pub const LED_DESCRIPTION: &'static str = "Green User LED (LD2)";

    pub const BUTTON_PIN_NAME: &'static str = "PC13";

    pub const BUTTON_DESCRIPTION: &'static str = "Blue User Button (B1)";

    /// Busy-wait loop cycles per millisecond for delays; zero here, since
    /// an asynchronous timer is available on this board.
    pub fn cycles_per_ms() -> (r: u32)
        ensures
            r == 0,
    {
        0
    }
}

impl InterruptHandlers for BoardConfig {
    fn setup() {
        // Every handler this board needs comes with its runtime; nothing to
        // register by hand.
    }
}

/// Common timing constants, in milliseconds.
pub struct Timing;

impl Timing {
    /// Button debounce delay.
    pub const BUTTON_DEBOUNCE_MS: u64 = 50;

    /// Watchdog pet interval; must stay below the watchdog timeout.
    pub const WATCHDOG_PET_MS: u64 = 250;

    /// Heartbeat interval.
    pub const HEARTBEAT_INTERVAL_MS: u64 = 2000;

    /// Clock display update interval.
    pub const RTC_UPDATE_INTERVAL_MS: u64 = 1000;
}

} // verus!
