//! ADC reading conversions. The converter hardware is natively 12-bit;
//! a 16-bit mode scales readings up by sixteen. Voltage conversions work
//! against a reference voltage given in millivolts.

use vstd::prelude::*;

verus! {

/// ADC resolution configuration.
#[derive(Debug, Clone, Copy, PartialEq, Eq, Structural)]
pub enum AdcResolution {
    /// 12-bit resolution (0 to 4095), the converter's native width.
    Bits12,
    /// 16-bit resolution (0 to 65535): 12-bit readings scaled up by 16.
    Bits16,
}

impl AdcResolution {
    /// The largest value a reading at this resolution can take.
    pub open spec fn spec_max_value(self) -> u16 {
        match self {
            AdcResolution::Bits12 => 4095,
            AdcResolution::Bits16 => 65535,
        }
    }

    /// Get the maximum value for this resolution.
    pub fn max_value(&self) -> (r: u16)
        ensures
            r == self.spec_max_value(),
    {
        match self {
            AdcResolution::Bits12 => 4095,
            AdcResolution::Bits16 => 65535,
        }
    }

    /// Convert a 12-bit raw value to the configured resolution. A value in
    /// the 12-bit range scales exactly; upper bits beyond it are shifted
    /// out, as the hardware never produces them.
    pub fn convert_from_12bit(&self, raw_12bit: u16) -> (r: u16)
        ensures
            self is Bits12 ==> r == raw_12bit,
            self is Bits16 ==> r == (raw_12bit * 16) % 0x10000,
            self is Bits16 && raw_12bit <= 4095 ==> r == raw_12bit * 16,
    {
        match self {
            AdcResolution::Bits12 => raw_12bit,
            AdcResolution::Bits16 => {
                proof {
                    assert(raw_12bit << 4 == (raw_12bit * 16) % 0x10000) by (bit_vector);
                    assert(raw_12bit <= 4095 ==> raw_12bit << 4 == raw_12bit * 16) by (bit_vector);
                }
                raw_12bit << 4
            },
        }
    }

    /// Convert from the configured resolution back to a 12-bit value,
    /// useful when working with the hardware's native readings.
    pub fn convert_to_12bit(&self, value: u16) -> (r: u16)
        ensures
            self is Bits12 ==> r == value,
            self is Bits16 ==> r == value / 16,
    {
        match self {
            AdcResolution::Bits12 => value,
            AdcResolution::Bits16 => {
                proof {
                    assert(value >> 4 == value / 16) by (bit_vector);
                }
                value >> 4
            },
        }
    }
}

/// Convert a raw reading at the given resolution to millivolts against the
/// reference voltage. A reading within the resolution's range converts
/// exactly; the result of an out-of-range reading wraps at 16 bits, as the
/// hardware register arithmetic would.
pub fn raw_to_millivolts(resolution: AdcResolution, vref_mv: u16, raw_value: u16) -> (mv: u16)
    ensures
        mv == ((raw_value * vref_mv) / resolution.spec_max_value() as int) % 0x10000,
        raw_value <= resolution.spec_max_value() ==> mv == (raw_value * vref_mv)
            / resolution.spec_max_value() as int,
{
    let max_value = resolution.max_value() as u32;
    proof {
        assert(raw_value * vref_mv <= 0xFFFF * 0xFFFF) by (nonlinear_arith)
            requires
                raw_value <= 0xFFFF,
                vref_mv <= 0xFFFF,
        ;
    }
    let q: u32 = (raw_value as u32 * vref_mv as u32) / max_value;
    proof {
        assert(q as u16 == q % 0x10000) by (bit_vector);
        if raw_value <= resolution.spec_max_value() {
            let m = resolution.spec_max_value() as int;
            assert(raw_value * vref_mv / m <= vref_mv) by (nonlinear_arith)
                requires
                    0 <= raw_value <= m,
                    0 <= vref_mv,
                    0 < m,
            ;
        }
    }
    #[verifier::truncate] (q as u16)
}

/// Convert a target voltage in millivolts to the raw reading that denotes
/// it at the given resolution. The reference voltage must not be zero. A
/// voltage within the reference converts exactly; beyond it the result
/// wraps at 16 bits.
pub fn millivolts_to_raw(resolution: AdcResolution, vref_mv: u16, millivolts: u16) -> (raw: u16)
    requires
        vref_mv > 0,
    ensures
        raw == ((millivolts * resolution.spec_max_value()) / vref_mv as int) % 0x10000,
        millivolts <= vref_mv ==> raw == (millivolts * resolution.spec_max_value())
            / vref_mv as int,
{
    let max_value = resolution.max_value() as u32;
    proof {
        assert(millivolts * max_value <= 0xFFFF * 0xFFFF) by (nonlinear_arith)
            requires
                millivolts <= 0xFFFF,
                max_value <= 0xFFFF,
        ;
    }
    let q: u32 = (millivolts as u32 * max_value) / vref_mv as u32;
    proof {
        assert(q as u16 == q % 0x10000) by (bit_vector);
        if millivolts <= vref_mv {
            let m = resolution.spec_max_value() as int;
            assert(millivolts * m / (vref_mv as int) <= m) by (nonlinear_arith)
                requires
                    0 <= millivolts <= vref_mv,
                    0 < vref_mv,
                    0 <= m,
            ;
        }
    }
    #[verifier::truncate] (q as u16)
}

} // verus!
