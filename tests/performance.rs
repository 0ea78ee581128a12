use parsec_access::data::ParsecData;
use parsec_access::getters::{get_closest_parameters, get_parameters, is_data_ready, Catalog};
use parsec_access::line::ParsecLine;
use parsec_access::metallicity::get_metallicities_in_mass_fractions;
use parsec_access::trajectory::Trajectory;

const N: usize = 1_000_000;

/// A catalog of made-up tables: 60 initial masses per composition up to 370
/// solar masses, 120 ages per trajectory up to 15 billion years.
fn made_up_catalog() -> Catalog {
    let mut catalog = Catalog::new();
    for (i, z) in get_metallicities_in_mass_fractions().iter().enumerate() {
        let mut trajectories = Vec::new();
        for m in 0..60i64 {
            let mass = 100_000 + m * 6_200_000;
            let mut samples = Vec::new();
            for a in 0..120i64 {
                samples.push(ParsecLine {
                    mass,
                    age: a * 126_000_000_000_000,
                    log_luminosity: 0,
                    log_temperature: 3_760_000,
                    log_radius: 10_840_000,
                });
            }
            trajectories.push(Trajectory::new(samples));
        }
        catalog.store(
            i,
            Ok(ParsecData {
                metallicity_in_mass_fraction: *z,
                data: trajectories,
            }),
        );
    }
    catalog
}

#[test]
fn get_parameters_is_fast() {
    const PRIME1: usize = 1009;
    const PRIME2: usize = 1013;
    const PRIME3: usize = 10007;
    const MAX_METALLICITY_INDEX: usize = 10;
    const MAX_MASS_INDEX: usize = 50;
    const MAX_AGE_INDEX: usize = 100;

    let catalog = made_up_catalog();
    assert!(is_data_ready(&catalog));

    let mut indices = Vec::new();
    for i in 0..N {
        let metallicity_index = (i * PRIME1) % MAX_METALLICITY_INDEX;
        let mass_index = (i * PRIME2) % MAX_MASS_INDEX;
        let age_index = (i * PRIME3) % MAX_AGE_INDEX;
        indices.push((metallicity_index, mass_index, age_index));
    }

    let now = std::time::Instant::now();
    let mut total_mass: i128 = 0;
    for (metallicity_index, mass_index, age_index) in indices {
        total_mass += get_parameters(&catalog, metallicity_index, mass_index, age_index).mass as i128;
    }
    let elapsed = now.elapsed();
    println!("Collected a total mass of {} solar masses.", total_mass / 1_000_000);
    println!(
        "Accessing {} data points took {:?}, or {:?} per access",
        N,
        elapsed,
        elapsed / (N as u32)
    );
}

#[test]
fn get_closest_parameters_is_reasonably_fast() {
    const PRIME1: usize = 10037;
    const PRIME2: usize = 10039;
    const PRIME3: usize = 10061;
    const GRANULARITY: usize = 1000;
    const MAX_METALLICITY: f64 = 0.09;
    let max_mass_in_solar = 370.0;
    let max_age_in_years = 15.0e9;

    let catalog = made_up_catalog();
    assert!(is_data_ready(&catalog));

    let mut params = Vec::new();
    for i in 0..N {
        let metallicity_index = (i * PRIME1) % GRANULARITY;
        let metallicity = (metallicity_index as f64) / (GRANULARITY as f64) * MAX_METALLICITY;
        let mass_index = (i * PRIME2) % GRANULARITY;
        let mass = (mass_index as f64) / (GRANULARITY as f64) * max_mass_in_solar;
        let age_index = (i * PRIME3) % GRANULARITY;
        let age = (age_index as f64) / (GRANULARITY as f64) * max_age_in_years;
        params.push((
            (metallicity * 1e6) as i64,
            (mass * 1e6) as i64,
            (age * 1e6) as i64,
        ));
    }

    let now = std::time::Instant::now();
    let mut total_mass: i128 = 0;
    for (metallicity, mass, age) in params {
        total_mass += get_closest_parameters(&catalog, metallicity, mass, age).mass as i128;
    }
    let elapsed = now.elapsed();
    println!("Collected a total mass of {} solar masses.", total_mass / 1_000_000);
    println!(
        "Accessing {} data points took {:?}, or {:?} per access",
        N,
        elapsed,
        elapsed / (N as u32)
    );
}
