use parsec_access::data::ParsecData;
use parsec_access::getters::{
    get_ages_in_years, get_closest_age_index, get_closest_mass_index,
    get_closest_metallicity_index_from_mass_fraction, get_masses_in_solar,
    get_metallicities_in_mass_fractions, is_data_ready, Catalog,
};
use parsec_access::line::ParsecLine;
use parsec_access::trajectory::Trajectory;

/// A catalog of made-up tables: 60 initial masses per composition, 120 ages
/// per trajectory, all strictly ascending.
fn made_up_catalog() -> Catalog {
    let mut catalog = Catalog::new();
    let metallicities = get_metallicities_in_mass_fractions();
    for (i, z) in metallicities.iter().enumerate() {
        let mut trajectories = Vec::new();
        for m in 0..60i64 {
            let mass = 100_000 + m * 50_000 + (i as i64) * 7;
            let mut samples = Vec::new();
            for a in 0..120i64 {
                samples.push(ParsecLine {
                    mass: mass - a,
                    age: a * a * 1_000_000_000 + a * 13,
                    log_luminosity: a,
                    log_temperature: 3_700_000,
                    log_radius: 10_800_000,
                });
            }
            trajectories.push(Trajectory::new(samples));
        }
        let table = ParsecData {
            metallicity_in_mass_fraction: *z,
            data: trajectories,
        };
        catalog.store(i, Ok(table));
    }
    catalog
}

#[test]
fn metallicites_are_mapped_to_themselves() {
    let catalog = made_up_catalog();
    assert!(is_data_ready(&catalog));
    for (expected_index, expected_value) in get_metallicities_in_mass_fractions().iter().enumerate()
    {
        let index = get_closest_metallicity_index_from_mass_fraction(*expected_value);
        assert_eq!(expected_index, index);
    }
}

#[test]
fn masses_are_mapped_to_themselves() {
    let catalog = made_up_catalog();
    assert!(is_data_ready(&catalog));
    let metallicity_index = 3;
    for (expected_index, expected_value) in get_masses_in_solar(&catalog, metallicity_index)
        .iter()
        .enumerate()
    {
        let index = get_closest_mass_index(&catalog, metallicity_index, *expected_value);
        assert_eq!(expected_index, index);
    }
}

#[test]
fn ages_are_mapped_to_themselves() {
    let catalog = made_up_catalog();
    assert!(is_data_ready(&catalog));
    let metallicity_index = 3;
    let mass_index = 30;
    for (expected_index, expected_value) in get_ages_in_years(&catalog, metallicity_index, mass_index)
        .iter()
        .enumerate()
    {
        let index = get_closest_age_index(&catalog, metallicity_index, mass_index, *expected_value);
        assert_eq!(expected_index, index);
    }
}
