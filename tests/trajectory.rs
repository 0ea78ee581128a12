use parsec_access::error::ParsecAccessError;
use parsec_access::line::ParsecLine;
use parsec_access::trajectory::{read_trajectory_lines, Trajectory};

fn sample(mass: i64, age: i64) -> ParsecLine {
    ParsecLine {
        mass,
        age,
        log_luminosity: 0,
        log_temperature: 0,
        log_radius: 0,
    }
}

#[test]
fn constructor_with_empty_params_does_not_throw() {
    let trajectory = Trajectory::new(vec![]);
    assert!(trajectory.is_empty());
}

#[test]
fn empty_trajectory_has_zero_mass_and_lifetime() {
    let trajectory = Trajectory::new(vec![]);
    assert_eq!(trajectory.initial_mass(), 0);
    assert_eq!(trajectory.lifetime(), 0);
    assert!(trajectory.ages().is_empty());
}

#[test]
fn trajectory_draws_mass_lifetime_and_ages_from_samples() {
    let trajectory = Trajectory::new(vec![sample(2_000_000, 10), sample(1_900_000, 20), sample(1_800_000, 35)]);
    assert!(!trajectory.is_empty());
    assert_eq!(trajectory.len(), 3);
    assert_eq!(trajectory.initial_mass(), 2_000_000);
    assert_eq!(trajectory.lifetime(), 35);
    assert_eq!(trajectory.ages(), &vec![10, 20, 35]);
    assert_eq!(*trajectory.ages().last().unwrap(), trajectory.lifetime());
    assert_eq!(trajectory.get(1).mass, 1_900_000);
}

#[test]
fn trajectory_keeps_the_order_it_was_given() {
    let trajectory = Trajectory::new(vec![sample(1, 20), sample(1, 10)]);
    assert_eq!(trajectory.ages(), &vec![20, 10]);
    assert_eq!(trajectory.lifetime(), 10);
}

#[test]
fn track_file_lines_become_a_trajectory() {
    let lines = vec![
        "MODELL MASS AGE LOG_L LOG_TE LOG_R".to_string(),
        "0 1.00000 0.0000000E+00 -0.12 3.76 10.84".to_string(),
        "1 0.99990 4.6000000E+09 0.01 3.762 10.842".to_string(),
    ];
    let trajectory = read_trajectory_lines(&lines).unwrap();
    assert_eq!(trajectory.len(), 2);
    assert_eq!(trajectory.initial_mass(), 1_000_000);
    assert_eq!(trajectory.lifetime(), 4_600_000_000_000_000);
    assert_eq!(trajectory.ages(), &vec![0, 4_600_000_000_000_000]);
    assert_eq!(trajectory.get(1).log_temperature, 3_762_000);
}

#[test]
fn a_bad_data_line_fails_the_trajectory() {
    let lines = vec![
        "0 1.0 0.0 0.0 3.7 10.8".to_string(),
        "1 1.0 2.0 0.0".to_string(),
        "2 1.0 3.0 0.0 3.7".to_string(),
    ];
    match read_trajectory_lines(&lines) {
        Err(ParsecAccessError::DataNotAvailable(name)) => assert_eq!(name, "log_te"),
        other => panic!("unexpected {:?}", other),
    }
}

#[test]
fn a_blank_line_is_data_without_a_mass() {
    let lines = vec!["# a header".to_string(), "".to_string()];
    match read_trajectory_lines(&lines) {
        Err(ParsecAccessError::DataNotAvailable(name)) => assert_eq!(name, "mass"),
        other => panic!("unexpected {:?}", other),
    }
}

#[test]
fn only_header_lines_give_an_empty_trajectory() {
    let lines = vec!["# a header".to_string(), "Z = 0.014 Y = 0.273".to_string()];
    assert!(read_trajectory_lines(&lines).unwrap().is_empty());
}
