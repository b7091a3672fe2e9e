//! Telemetry model: one device reading, and its normalized feature form.
use vstd::prelude::*;
use crate::fixed::MICRO;

verus! {

/// One analog-to-digital conversion: millivolt levels of the battery,
/// the LDO regulator input, and the pressure sensor.
#[derive(Clone, Copy, PartialEq, Eq, Structural, Debug)]
pub struct ADCRead {
    pub battery_mv: u16,
    pub ldo_inp_mv: u16,
    pub pressure_mv: u16,
}

/// One device reading: ADC levels, pulse count and timestamp.
#[derive(Clone, Copy, PartialEq, Eq, Structural, Debug)]
pub struct DeviceState {
    pub adc_state: ADCRead,
    pub n_pulses: u16,
    pub time_sec: u64,
}

/// One labeled training example: three normalized inputs and the
/// remaining-time label, all in micro-units.
#[derive(Clone, Copy, PartialEq, Eq, Structural, Debug)]
pub struct FeatureVec {
    pub prev_battery: i64,
    pub curr_battery: i64,
    pub curr_ldo: i64,
    pub label: i64,
}

/// The normalization map on millivolts: `(v - 3300) / 800` in units,
/// which is exactly `(v - 3300) * 1250` micro-units.
pub open spec fn spec_norm(v: u16) -> int {
    (v - 3300) * 1250
}

impl DeviceState {
    /// Normalize a millivolt reading so that 3300 mV maps to 0.0 and
    /// 4100 mV maps to 1.0.  Values outside that range are not clamped.
    pub fn norm(value: u16) -> (r: i64)
        ensures
            r == spec_norm(value),
    {
        (value as i64 - 3300) * 1250
    }

    /// Build the feature vector for this reading, given the previous
    /// reading and the remaining-time label in micro-units.
    pub fn get_ai_data(&self, last: DeviceState, label: i64) -> (r: FeatureVec)
        ensures
            r == (FeatureVec {
                prev_battery: spec_norm(last.adc_state.battery_mv) as i64,
                curr_battery: spec_norm(self.adc_state.battery_mv) as i64,
                curr_ldo: spec_norm(self.adc_state.ldo_inp_mv) as i64,
                label: label,
            }),
    {
        FeatureVec {
            prev_battery: Self::norm(last.adc_state.battery_mv),
            curr_battery: Self::norm(self.adc_state.battery_mv),
            curr_ldo: Self::norm(self.adc_state.ldo_inp_mv),
            label: label,
        }
    }
}

/// The normalization is exactly the affine map `(v - 3300) / 800`:
/// scaled by `MICRO`, the numerator `(v - 3300) * MICRO` is always
/// divisible by 800, and `spec_norm` is precisely that quotient.
/// In particular 3300 mV maps to 0 and 4100 mV maps to one unit.
pub proof fn lemma_norm_exact(v: u16)
    ensures
        spec_norm(v) * 800 == (v - 3300) * MICRO,
        spec_norm(v) == ((v - 3300) * MICRO) / 800,
        spec_norm(3300) == 0,
        spec_norm(4100) == MICRO,
{
    assert(spec_norm(v) * 800 == (v - 3300) * MICRO) by (nonlinear_arith);
    assert(((v - 3300) * 1250) * 800 / 800 == (v - 3300) * 1250) by (nonlinear_arith);
}

} // verus!
