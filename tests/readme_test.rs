use parsec_access::data::ParsecData;
use parsec_access::getters::{
    get_closest_mass_index, get_closest_parameters, get_trajectory, is_data_ready, Catalog,
};
use parsec_access::line::ParsecLine;
use parsec_access::metallicity::{
    get_closest_metallicity_index_from_mass_fraction, get_metallicities_in_mass_fractions,
};
use parsec_access::trajectory::read_trajectory_lines;

/// A catalog whose every composition holds the same two short tracks, read
/// from track-file text.
fn small_catalog() -> Catalog {
    let light = vec![
        "MODELL MASS AGE LOG_L LOG_TE LOG_R".to_string(),
        "0 1.0 0.0 -0.15 3.75 10.82".to_string(),
        "1 1.0 4.6E+09 0.0 3.7613 10.8428".to_string(),
        "2 0.99 1.0E+10 0.3 3.74 10.95".to_string(),
    ];
    let heavy = vec![
        "MODELL MASS AGE LOG_L LOG_TE LOG_R".to_string(),
        "0 1.8 0.0 1.0 3.90 10.95".to_string(),
        "1 1.8 6.0E+08 1.1 3.89 11.0".to_string(),
        "2 1.79 1.5E+09 1.4 3.80 11.3".to_string(),
    ];
    let mut catalog = Catalog::new();
    for (i, z) in get_metallicities_in_mass_fractions().iter().enumerate() {
        let table = ParsecData {
            metallicity_in_mass_fraction: *z,
            data: vec![
                read_trajectory_lines(&light).unwrap(),
                read_trajectory_lines(&heavy).unwrap(),
            ],
        };
        catalog.store(i, Ok(table));
    }
    catalog
}

#[test]
fn readme_test() {
    let catalog = small_catalog();
    if !is_data_ready(&catalog) {
        panic!("Loading the PARSEC data failed.");
    }

    // Composition as mass fraction, mass in solar masses and age in years,
    // all in millionths.
    let metallicity_mass_fraction = 4_000;
    let initial_mass = 1_800_000;
    let current_age = 600_000_000_000_000;
    let parameters: &ParsecLine =
        get_closest_parameters(&catalog, metallicity_mass_fraction, initial_mass, current_age);
    println!("The star has a current mass of {} solar masses.", parameters.mass as f64 / 1e6);
    println!(
        "The star has a current temperature of {}.",
        10f64.powf(parameters.log_temperature as f64 / 1e6)
    );
    println!(
        "The star has a current radius of {} km.",
        10f64.powf(parameters.log_radius as f64 / 1e6) / 1e5
    );
    println!(
        "The star has a current luminosity of {} sol.",
        10f64.powf(parameters.log_luminosity as f64 / 1e6)
    );

    let metallicity_index =
        get_closest_metallicity_index_from_mass_fraction(metallicity_mass_fraction);
    let mass_index = get_closest_mass_index(&catalog, metallicity_index, initial_mass);

    let trajectory = get_trajectory(&catalog, metallicity_index, mass_index);
    println!(
        "The star is expected to reach the proud age of {} Gyr.",
        trajectory.lifetime() as f64 / 1e15
    );
    assert_eq!(parameters.age, current_age);
    assert_eq!(trajectory.initial_mass(), initial_mass);
}
