//! The controller's configuration: PWM channel, polling interval,
//! thermal zone and response curve, validated once at startup and
//! immutable afterwards.

use vstd::prelude::*;
use crate::curve::CurveError;
use crate::curve::ResponseCurve;
use crate::curve::curve_wf;
use crate::curve::step_in_range;

verus! {

/// The hardware offers exactly two PWM channels; every other channel
/// index is rejected at configuration time.
#[derive(Clone, Copy, Debug, PartialEq, Eq, Structural)]
pub enum PwmChannel {
    Pwm0,
    Pwm1,
}

/// The channel a valid index selects.
pub open spec fn channel_for(idx: u8) -> PwmChannel {
    if idx == 0 {
        PwmChannel::Pwm0
    } else {
        PwmChannel::Pwm1
    }
}

/// Why a configuration was rejected at startup.
#[derive(Clone, Copy, Debug, PartialEq, Eq, Structural)]
pub enum ConfigError {
    /// The channel index names neither of the two PWM channels.
    InvalidChannel,
    /// The polling interval is not positive.
    NonPositiveInterval,
    /// The breakpoint tables are invalid.
    Curve(CurveError),
}

/// The validated, immutable configuration of one controller process.
pub struct Config {
    pub channel: PwmChannel,
    /// Polling interval in milliseconds; always positive.
    pub poll_interval_ms: i64,
    /// Thermal zone index naming the temperature source.
    pub thermal_zone: u8,
    pub curve: ResponseCurve,
}

impl Config {
    pub open spec fn wf(&self) -> bool {
        self.poll_interval_ms > 0 && self.curve.wf()
    }

    /// Validates every configured option and builds the configuration.
    /// Succeeds exactly when the channel index is 0 or 1, the interval
    /// is positive and the breakpoint tables are well formed; checks run
    /// in that order and the first violation is reported.
    pub fn new(
        channel_index: u8,
        poll_interval_ms: i64,
        thermal_zone: u8,
        temperature_steps: Vec<i64>,
        fan_speed_steps: Vec<i64>,
    ) -> (r: Result<Config, ConfigError>)
        ensures
            match r {
                Ok(c) => {
                    &&& channel_index <= 1
                    &&& poll_interval_ms > 0
                    &&& c.channel == channel_for(channel_index)
                    &&& c.poll_interval_ms == poll_interval_ms
                    &&& c.thermal_zone == thermal_zone
                    &&& c.curve.temps() == temperature_steps@
                    &&& c.curve.speeds() == fan_speed_steps@
                    &&& c.wf()
                },
                Err(ConfigError::InvalidChannel) => channel_index > 1,
                Err(ConfigError::NonPositiveInterval) => channel_index <= 1 && poll_interval_ms
                    <= 0,
                Err(ConfigError::Curve(e)) => {
                    &&& channel_index <= 1
                    &&& poll_interval_ms > 0
                    &&& match e {
                        CurveError::UnequalLengths => temperature_steps@.len()
                            != fan_speed_steps@.len(),
                        CurveError::Empty => temperature_steps@.len() == fan_speed_steps@.len()
                            && temperature_steps@.len() == 0,
                        CurveError::StepOutOfRange => {
                            &&& temperature_steps@.len() == fan_speed_steps@.len()
                            &&& temperature_steps@.len() >= 1
                            &&& exists|i: int|
                                0 <= i < temperature_steps@.len() && (!step_in_range(
                                    #[trigger] temperature_steps@[i],
                                ) || !step_in_range(fan_speed_steps@[i]))
                        },
                        CurveError::NotIncreasing => {
                            &&& temperature_steps@.len() == fan_speed_steps@.len()
                            &&& temperature_steps@.len() >= 1
                            &&& exists|i: int|
                                0 <= i < temperature_steps@.len() - 1
                                    && #[trigger] temperature_steps@[i] >= temperature_steps@[i
                                    + 1]
                        },
                    }
                },
            },
            channel_index <= 1 && poll_interval_ms > 0 && curve_wf(
                temperature_steps@,
                fan_speed_steps@,
            ) ==> r is Ok,
    {
        if channel_index > 1 {
            return Err(ConfigError::InvalidChannel);
        }
        let channel = if channel_index == 0 {
            PwmChannel::Pwm0
        } else {
            PwmChannel::Pwm1
        };
        if poll_interval_ms <= 0 {
            return Err(ConfigError::NonPositiveInterval);
        }
        match ResponseCurve::new(temperature_steps, fan_speed_steps) {
            Ok(curve) => Ok(Config { channel, poll_interval_ms, thermal_zone, curve }),
            Err(e) => Err(ConfigError::Curve(e)),
        }
    }
}

} // verus!
