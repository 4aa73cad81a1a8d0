//! Behaviour of the control loop state machine and of configuration
//! validation.

use fancurve::config::Config;
use fancurve::config::ConfigError;
use fancurve::config::PwmChannel;
use fancurve::control::Action;
use fancurve::control::Controller;
use fancurve::control::Event;
use fancurve::control::LoopError;
use fancurve::control::LoopState;
use fancurve::curve::CurveError;
use fancurve::parse::parse_fixed;
use fancurve::parse::parse_step_list;
use fancurve::parse::parse_temperature;

fn reference_config() -> Config {
    Config::new(
        0,
        1_500,
        0,
        vec![50_000, 60_000, 80_000],
        vec![30_000, 70_000, 100_000],
    )
    .unwrap()
}

#[test]
fn full_iteration_cycle() {
    let mut c = Controller::new(reference_config());
    assert_eq!(c.phase(), LoopState::Sampling);

    let a = c.step(Event::SensorReading(55_000));
    assert_eq!(a, Action::SetDuty(50_000));
    assert_eq!(c.phase(), LoopState::Actuating);

    let a = c.step(Event::ActuatorWritten);
    assert_eq!(a, Action::Sleep(1_500));
    assert_eq!(c.phase(), LoopState::Idle);

    let a = c.step(Event::TimerElapsed);
    assert_eq!(a, Action::Sample);
    assert_eq!(c.phase(), LoopState::Sampling);

    // A second iteration with a saturating temperature.
    let a = c.step(Event::SensorReading(95_000));
    assert_eq!(a, Action::SetDuty(100_000));
}

#[test]
fn sensor_failure_stops_before_actuation() {
    let mut c = Controller::new(reference_config());
    let a = c.step(Event::SensorFailed);
    // The loop terminates and no duty cycle reaches the actuator.
    assert_eq!(a, Action::Stop(LoopError::SensorFailure));
    assert_eq!(c.phase(), LoopState::Stopped);
}

#[test]
fn actuator_failure_stops() {
    let mut c = Controller::new(reference_config());
    c.step(Event::SensorReading(70_000));
    let a = c.step(Event::ActuatorFailed);
    assert_eq!(a, Action::Stop(LoopError::ActuatorFailure));
    assert_eq!(c.phase(), LoopState::Stopped);
}

#[test]
fn controller_reports_configuration() {
    let c = Controller::new(reference_config());
    assert_eq!(c.channel(), PwmChannel::Pwm0);
    assert_eq!(c.poll_interval_ms(), 1_500);
    assert_eq!(c.thermal_zone(), 0);
}

#[test]
fn channel_selection() {
    let c = Config::new(1, 1_000, 2, vec![0], vec![0]).unwrap();
    assert_eq!(c.channel, PwmChannel::Pwm1);
    assert_eq!(c.thermal_zone, 2);
}

#[test]
fn invalid_channel_rejected() {
    let r = Config::new(2, 1_500, 0, vec![50_000], vec![30_000]);
    assert_eq!(r.err(), Some(ConfigError::InvalidChannel));
}

#[test]
fn non_positive_interval_rejected() {
    let r = Config::new(0, 0, 0, vec![50_000], vec![30_000]);
    assert_eq!(r.err(), Some(ConfigError::NonPositiveInterval));
    let r = Config::new(0, -5, 0, vec![50_000], vec![30_000]);
    assert_eq!(r.err(), Some(ConfigError::NonPositiveInterval));
}

#[test]
fn unequal_step_lists_rejected_before_any_evaluation() {
    let r = Config::new(0, 1_500, 0, vec![50_000, 60_000, 80_000], vec![30_000, 70_000]);
    assert_eq!(r.err(), Some(ConfigError::Curve(CurveError::UnequalLengths)));
}

#[test]
fn parsed_defaults_drive_the_loop() {
    let ts = parse_step_list(b"50,60,80").unwrap();
    let fs = parse_step_list(b"30,70,100").unwrap();
    let interval = parse_fixed(b"1.5").unwrap();
    let config = Config::new(0, interval, 0, ts, fs).unwrap();
    let mut c = Controller::new(config);
    let t = parse_temperature(b"55000\n").unwrap();
    assert_eq!(c.step(Event::SensorReading(t)), Action::SetDuty(50_000));
    assert_eq!(c.step(Event::ActuatorWritten), Action::Sleep(1_500));
}

#[test]
fn non_increasing_steps_rejected_in_config() {
    let r = Config::new(0, 1_500, 0, vec![60_000, 50_000], vec![30_000, 70_000]);
    assert_eq!(r.err(), Some(ConfigError::Curve(CurveError::NotIncreasing)));
}
