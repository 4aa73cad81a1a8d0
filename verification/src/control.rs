//! The sense-compute-actuate control loop, modelled as a state machine.
//!
//! The controller itself performs no I/O: the surrounding process reads
//! the sensor, writes the actuator and sleeps, and reports each outcome
//! as an [`Event`]. [`Controller::step`] consumes the event, advances the
//! state and answers with the [`Action`] the process must perform next.
//! Every sensor or actuator failure stops the loop at once: in
//! particular, a failed sensor read never reaches the actuator.

use vstd::prelude::*;
use crate::config::Config;

verus! {

/// Phase of the control loop: each phase waits on exactly one outside
/// operation.
#[derive(Clone, Copy, Debug, PartialEq, Eq, Structural)]
pub enum LoopState {
    /// Waiting on the temperature source.
    Sampling,
    /// Waiting on the actuator write.
    Actuating,
    /// Waiting on the interval timer.
    Idle,
    /// Terminated on a fatal failure; no further step is taken.
    Stopped,
}

/// Outcome of the outside operation the controller was waiting on.
#[derive(Clone, Copy, Debug, PartialEq, Eq, Structural)]
pub enum Event {
    /// The sensor delivered a temperature, in milli-degrees Celsius.
    SensorReading(i64),
    /// The sensor could not be read, or its content could not be parsed.
    SensorFailed,
    /// The duty cycle was written to the actuator.
    ActuatorWritten,
    /// The actuator rejected the write.
    ActuatorFailed,
    /// The polling interval elapsed.
    TimerElapsed,
}

/// The failure that terminated the loop.
#[derive(Clone, Copy, Debug, PartialEq, Eq, Structural)]
pub enum LoopError {
    SensorFailure,
    ActuatorFailure,
}

/// What the surrounding process must do next.
#[derive(Clone, Copy, Debug, PartialEq, Eq, Structural)]
pub enum Action {
    /// Read the temperature source.
    Sample,
    /// Write this duty cycle, in milli-percent, to the actuator.
    SetDuty(i64),
    /// Suspend for this many milliseconds.
    Sleep(i64),
    /// Terminate the process with a diagnostic for this failure.
    Stop(LoopError),
}

/// The events a phase can be waiting on.
pub open spec fn accepts(state: LoopState, event: Event) -> bool {
    match (state, event) {
        (LoopState::Sampling, Event::SensorReading(_)) => true,
        (LoopState::Sampling, Event::SensorFailed) => true,
        (LoopState::Actuating, Event::ActuatorWritten) => true,
        (LoopState::Actuating, Event::ActuatorFailed) => true,
        (LoopState::Idle, Event::TimerElapsed) => true,
        _ => false,
    }
}

/// The control loop: an immutable configuration and the current phase.
pub struct Controller {
    config: Config,
    state: LoopState,
}

impl Controller {
    pub closed spec fn config(&self) -> Config {
        self.config
    }

    pub closed spec fn state(&self) -> LoopState {
        self.state
    }

    pub open spec fn wf(&self) -> bool {
        self.config().wf()
    }

    /// A fresh controller starts by sampling the sensor.
    pub fn new(config: Config) -> (c: Controller)
        ensures
            c.config() == config,
            c.state() is Sampling,
    {
        Controller { config, state: LoopState::Sampling }
    }

    pub fn phase(&self) -> (s: LoopState)
        ensures
            s == self.state(),
    {
        self.state
    }

    pub fn channel(&self) -> (r: crate::config::PwmChannel)
        ensures
            r == self.config().channel,
    {
        self.config.channel
    }

    pub fn poll_interval_ms(&self) -> (r: i64)
        ensures
            r == self.config().poll_interval_ms,
    {
        self.config.poll_interval_ms
    }

    pub fn thermal_zone(&self) -> (r: u8)
        ensures
            r == self.config().thermal_zone,
    {
        self.config.thermal_zone
    }

    /// One transition of the loop: consumes the outcome of the operation
    /// the controller was waiting on and answers with the next one.
    ///
    /// A sensor reading is mapped through the response curve and handed
    /// to the actuator; a sensor failure stops the loop at once, without
    /// an actuator write for that iteration; an actuator failure stops
    /// the loop; a successful write starts the interval timer; an
    /// elapsed timer starts the next sample.
    pub fn step(&mut self, event: Event) -> (action: Action)
        requires
            old(self).wf(),
            accepts(old(self).state(), event),
        ensures
            final(self).config() == old(self).config(),
            final(self).wf(),
            match (old(self).state(), event) {
                (LoopState::Sampling, Event::SensorReading(t)) => {
                    &&& final(self).state() is Actuating
                    &&& action matches Action::SetDuty(d) && d == old(
                        self,
                    ).config().curve.duty_at(t)
                },
                (LoopState::Sampling, Event::SensorFailed) => {
                    &&& final(self).state() is Stopped
                    &&& action == Action::Stop(LoopError::SensorFailure)
                },
                (LoopState::Actuating, Event::ActuatorWritten) => {
                    &&& final(self).state() is Idle
                    &&& action == Action::Sleep(old(self).config().poll_interval_ms)
                },
                (LoopState::Actuating, Event::ActuatorFailed) => {
                    &&& final(self).state() is Stopped
                    &&& action == Action::Stop(LoopError::ActuatorFailure)
                },
                (LoopState::Idle, Event::TimerElapsed) => {
                    &&& final(self).state() is Sampling
                    &&& action == Action::Sample
                },
                _ => false,
            },
    {
        match (self.state, event) {
            (LoopState::Sampling, Event::SensorReading(t)) => {
                let duty = self.config.curve.evaluate(t);
                self.state = LoopState::Actuating;
                Action::SetDuty(duty)
            },
            (LoopState::Sampling, Event::SensorFailed) => {
                self.state = LoopState::Stopped;
                Action::Stop(LoopError::SensorFailure)
            },
            (LoopState::Actuating, Event::ActuatorWritten) => {
                self.state = LoopState::Idle;
                Action::Sleep(self.config.poll_interval_ms)
            },
            (LoopState::Actuating, Event::ActuatorFailed) => {
                self.state = LoopState::Stopped;
                Action::Stop(LoopError::ActuatorFailure)
            },
            (LoopState::Idle, Event::TimerElapsed) => {
                self.state = LoopState::Sampling;
                Action::Sample
            },
            _ => {
                proof {
                    assert(false);
                }
                Action::Sample
            },
        }
    }
}

} // verus!
