use parsec_access::data::ParsecData;
use parsec_access::line::ParsecLine;
use parsec_access::trajectory::Trajectory;

#[test]
fn default_data_is_invalid() {
    let data = ParsecData::default();
    assert!(!data.is_valid());
}

#[test]
fn empty_data_is_invalid() {
    let mut data = ParsecData::default();
    data.metallicity_in_mass_fraction = 50_000;
    assert!(!data.is_valid());
}

#[test]
fn data_with_empty_trajectory_is_invalid() {
    let mut data = ParsecData::default();
    data.metallicity_in_mass_fraction = 50_000;
    let valid_line = ParsecLine {
        mass: 1_000_000,
        age: 1_000_000,
        log_luminosity: 0,
        log_temperature: 0,
        log_radius: 0,
    };
    data.data.push(Trajectory::new(vec![valid_line]));
    data.data.push(Trajectory::new(vec![]));
    assert!(!data.is_valid());
}

#[test]
fn data_with_only_filled_trajectories_is_valid() {
    let line = ParsecLine {
        mass: 1_000_000,
        age: 1_000_000,
        log_luminosity: 0,
        log_temperature: 0,
        log_radius: 0,
    };
    let data = ParsecData {
        metallicity_in_mass_fraction: 100,
        data: vec![Trajectory::new(vec![line]), Trajectory::new(vec![line, line])],
    };
    assert!(data.is_valid());
    let negative = ParsecData {
        metallicity_in_mass_fraction: -1,
        data: vec![Trajectory::new(vec![line])],
    };
    assert!(!negative.is_valid());
}
