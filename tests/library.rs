use parsec_access::codec::{decode_data, encode_data};
use parsec_access::data::{assemble_data, ParsecData};
use parsec_access::error::ParsecAccessError;
use parsec_access::getters::{
    get_closest_data, get_closest_parameters, get_closest_trajectory, get_data, get_parameters,
    get_trajectory, is_data_ready, Catalog, Slot,
};
use parsec_access::line::{is_header, ParsecLine};
use parsec_access::metallicity::{
    get_closest_metallicity_index_from_fe_dex, get_closest_metallicity_index_from_mass_fraction,
    get_metallicities_in_fe_dex, get_metallicities_in_mass_fractions,
};
use parsec_access::nearest::get_closest_index;
use parsec_access::number::parse_fixed;
use parsec_access::paths::{contains_text, old_data_dirs_pattern};
use parsec_access::text::{split_fields, trim_line};
use parsec_access::trajectory::Trajectory;

fn chars(s: &str) -> Vec<char> {
    s.chars().collect()
}

fn text(v: &[char]) -> String {
    v.iter().collect()
}

fn sample(mass: i64, age: i64) -> ParsecLine {
    ParsecLine {
        mass,
        age,
        log_luminosity: -120_000,
        log_temperature: 3_761_000,
        log_radius: 10_842_000,
    }
}

fn table(z: i64) -> ParsecData {
    ParsecData {
        metallicity_in_mass_fraction: z,
        data: vec![
            Trajectory::new(vec![sample(800_000, 0), sample(799_000, 5_000_000)]),
            Trajectory::new(vec![sample(1_000_000, 0), sample(999_000, 4_000_000), sample(990_000, 9_000_000)]),
            Trajectory::new(vec![sample(1_200_000, 0), sample(1_190_000, 3_000_000)]),
        ],
    }
}

fn ready_catalog() -> Catalog {
    let mut catalog = Catalog::new();
    for (i, z) in get_metallicities_in_mass_fractions().iter().enumerate() {
        catalog.store(i, Ok(table(*z)));
    }
    catalog
}

#[test]
fn closest_index_prefers_the_nearer_neighbour() {
    let grid = [0i64, 10, 20, 30];
    assert_eq!(get_closest_index(&grid, 4), 0);
    assert_eq!(get_closest_index(&grid, 6), 1);
    assert_eq!(get_closest_index(&grid, 24), 2);
    assert_eq!(get_closest_index(&grid, 26), 3);
}

#[test]
fn closest_index_breaks_ties_upwards() {
    let grid = [0i64, 10, 20, 30];
    assert_eq!(get_closest_index(&grid, 5), 1);
    assert_eq!(get_closest_index(&grid, 15), 2);
    assert_eq!(get_closest_index(&grid, 25), 3);
}

#[test]
fn closest_index_clamps_at_the_ends() {
    let grid = [100i64, 200, 500];
    assert_eq!(get_closest_index(&grid, -1_000_000), 0);
    assert_eq!(get_closest_index(&grid, 1_000_000), 2);
    assert_eq!(get_closest_index(&[42i64], 7), 0);
    assert_eq!(get_closest_index(&[i64::MIN, i64::MAX], 0), 1);
    assert_eq!(get_closest_index(&[i64::MIN, i64::MAX], -1), 0);
}

#[test]
fn mass_fraction_lookup_follows_the_grid() {
    let grid = get_metallicities_in_mass_fractions();
    assert_eq!(grid.len(), 15);
    assert_eq!(grid[0], 100);
    assert_eq!(grid[14], 60_000);
    assert_eq!(grid[get_closest_metallicity_index_from_mass_fraction(10_100)], 10_000);
    assert_eq!(get_closest_metallicity_index_from_mass_fraction(0), 0);
    assert_eq!(get_closest_metallicity_index_from_mass_fraction(999_000), 14);
    assert_eq!(get_closest_metallicity_index_from_mass_fraction(12_200), 9);
    // halfway between 0.0001 and 0.0002
    assert_eq!(get_closest_metallicity_index_from_mass_fraction(150), 1);
}

#[test]
fn fe_dex_lookup_follows_the_grid() {
    let grid = get_metallicities_in_fe_dex();
    assert_eq!(grid.len(), 15);
    for (i, v) in grid.iter().enumerate() {
        assert_eq!(get_closest_metallicity_index_from_fe_dex(*v), i);
    }
    assert_eq!(get_closest_metallicity_index_from_fe_dex(-10_000_000), 0);
    assert_eq!(get_closest_metallicity_index_from_fe_dex(10_000_000), 14);
    assert_eq!(get_closest_metallicity_index_from_fe_dex(0), 9);
}

#[test]
fn numbers_are_read_as_millionths() {
    assert_eq!(parse_fixed(&chars("1.5")), Some(1_500_000));
    assert_eq!(parse_fixed(&chars("-2.25E+01")), Some(-22_500_000));
    assert_eq!(parse_fixed(&chars("4.6e9")), Some(4_600_000_000_000_000));
    assert_eq!(parse_fixed(&chars(".5")), Some(500_000));
    assert_eq!(parse_fixed(&chars("5.")), Some(5_000_000));
    assert_eq!(parse_fixed(&chars("+7")), Some(7_000_000));
    assert_eq!(parse_fixed(&chars("0.0000001")), Some(0));
    assert_eq!(parse_fixed(&chars("-0.0000019")), Some(-1));
    assert_eq!(parse_fixed(&chars("1e-7")), Some(0));
    assert_eq!(parse_fixed(&chars("1234567E-3")), Some(1_234_567_000));
}

#[test]
fn malformed_numbers_are_refused() {
    for bad in ["", "+", "-", ".", "e5", "1e", "1e+", "1.2.3", "--1", "1x", "nan", "1 2"] {
        assert_eq!(parse_fixed(&chars(bad)), None, "{}", bad);
    }
    // too large a value
    assert_eq!(parse_fixed(&chars("1234567890123456789")), None);
    assert_eq!(parse_fixed(&chars("1e10000")), None);
    assert_eq!(parse_fixed(&chars("1E+20")), None);
    assert_eq!(parse_fixed(&chars("9223372036854.77580")), Some(9_223_372_036_854_775_800));
    assert_eq!(parse_fixed(&chars("9223372036855")), None);
}

#[test]
fn digits_past_the_sixth_decimal_are_dropped() {
    assert_eq!(parse_fixed(&chars("0.12345678901234567890123")), Some(123_456));
    assert_eq!(parse_fixed(&chars("-0.99999999999999999999")), Some(-999_999));
    assert_eq!(parse_fixed(&chars("123456789012345678901234E-20")), Some(1_234_567_890));
    assert_eq!(parse_fixed(&chars("1e-10000")), Some(0));
    assert_eq!(parse_fixed(&chars("0e99999999999999999999999999")), Some(0));
    assert_eq!(parse_fixed(&chars("5E-99999999999999999999999999")), Some(0));
    assert_eq!(parse_fixed(&chars("1e99999999999999999999999999")), None);
    assert_eq!(parse_fixed(&chars("00000000000000000000000001.5")), Some(1_500_000));
}

#[test]
fn errors_describe_themselves() {
    assert_eq!(ParsecAccessError::DataNotAvailable("mass".to_string()).message(), "Data mass not available");
    assert_eq!(ParsecAccessError::Io("disk full".to_string()).message(), "I/O error: disk full");
    assert_eq!(ParsecAccessError::Connection("timeout".to_string()).message(), "Connection error: timeout");
}

#[test]
fn fields_are_split_on_white_space() {
    let f = split_fields("  a\tbc   d \n");
    let f: Vec<String> = f.iter().map(|v| text(v)).collect();
    assert_eq!(f, vec!["a", "bc", "d"]);
    assert!(split_fields("").is_empty());
    assert!(split_fields(" \t ").is_empty());
}

#[test]
fn lines_are_trimmed_to_the_needed_columns() {
    assert_eq!(text(&trim_line("0  1.0 2.0\t3.0 4.0 5.0 6.0 7.0", 6)), "0\t1.0\t2.0\t3.0\t4.0\t5.0");
    assert_eq!(text(&trim_line(" a  b ", 6)), "a\tb");
    assert_eq!(text(&trim_line("a b c", 0)), "");
}

#[test]
fn trimming_twice_changes_nothing() {
    let once = text(&trim_line("0  1.0 2.0\t3.0 4.0 5.0 6.0 7.0", 6));
    let twice = text(&trim_line(&once, 6));
    assert_eq!(once, twice);
}

#[test]
fn headers_hold_letters_other_than_exponents() {
    assert!(is_header("MODELL MASS AGE LOG_L"));
    assert!(is_header("# comment"));
    assert!(!is_header("1 2.0E+05 -1e-3"));
    assert!(!is_header(""));
    assert!(is_header("1 2 x"));
}

#[test]
fn a_data_line_gives_a_sample() {
    let line = ParsecLine::read("0 1.0 4.6E+09 0.0 3.7612 10.8427 99 99").unwrap();
    assert_eq!(line.mass, 1_000_000);
    assert_eq!(line.age, 4_600_000_000_000_000);
    assert_eq!(line.log_luminosity, 0);
    assert_eq!(line.log_temperature, 3_761_200);
    assert_eq!(line.log_radius, 10_842_700);
}

#[test]
fn a_short_line_names_the_missing_column() {
    let cases = [
        ("", "mass"),
        ("0", "mass"),
        ("0 1.0", "age"),
        ("0 1.0 2.0", "log_l"),
        ("0 1.0 2.0 3.0", "log_te"),
        ("0 1.0 2.0 3.0 4.0", "log_r"),
        ("0 1.0 2.0 3.0 4.0 x", "log_r"),
        ("0 x 2.0 3.0 4.0 5.0", "mass"),
        ("0 1.0 2.0 3.0e 4.0 5.0", "log_l"),
        ("0 1.0 2.0 3.0 4.0.1 x", "log_te"),
    ];
    for (line, name) in cases {
        match ParsecLine::read(line) {
            Err(ParsecAccessError::DataNotAvailable(n)) => assert_eq!(n, name),
            other => panic!("{}: unexpected {:?}", line, other),
        }
    }
}

#[test]
fn a_stored_table_reads_back_unchanged() {
    let kept = table(14_000);
    let bytes = encode_data(&kept);
    assert_eq!(bytes.len(), 8 * (2 + 3 + 5 * 7));
    let back = decode_data(&bytes).unwrap();
    assert_eq!(back.metallicity_in_mass_fraction, 14_000);
    assert_eq!(back.data.len(), kept.data.len());
    for (a, b) in back.data.iter().zip(kept.data.iter()) {
        assert_eq!(a.len(), b.len());
        for k in 0..a.len() {
            assert_eq!(a.get(k), b.get(k));
        }
        assert_eq!(a.lifetime(), b.lifetime());
    }
    assert_eq!(back.is_valid(), kept.is_valid());
}

#[test]
fn negative_values_survive_storage() {
    let kept = ParsecData {
        metallicity_in_mass_fraction: -5,
        data: vec![Trajectory::new(vec![sample(-1, i64::MIN)]), Trajectory::new(vec![])],
    };
    let back = decode_data(&encode_data(&kept)).unwrap();
    assert_eq!(back.metallicity_in_mass_fraction, -5);
    assert_eq!(back.data[0].get(0).age, i64::MIN);
    assert_eq!(back.data[0].get(0).mass, -1);
    assert!(back.data[1].is_empty());
    assert!(!back.is_valid());
}

#[test]
fn damaged_storage_is_refused() {
    let bytes = encode_data(&table(100));
    let cut = &bytes[..bytes.len() - 8];
    assert!(matches!(decode_data(cut), Err(ParsecAccessError::Deserialization(_))));
    let odd = &bytes[..bytes.len() - 3];
    assert!(matches!(decode_data(odd), Err(ParsecAccessError::Deserialization(_))));
    let mut longer = bytes.clone();
    longer.extend_from_slice(&[0u8; 8]);
    assert!(matches!(decode_data(&longer), Err(ParsecAccessError::Deserialization(_))));
    assert!(matches!(decode_data(&[]), Err(ParsecAccessError::Deserialization(_))));
    let mut huge_count = bytes.clone();
    huge_count[16] = 0xff;
    assert!(matches!(decode_data(&huge_count), Err(ParsecAccessError::Deserialization(_))));
}

#[test]
fn assembly_reports_the_first_failed_read() {
    let reads = vec![
        Ok(Trajectory::new(vec![sample(1, 1)])),
        Err(ParsecAccessError::Io("first".to_string())),
        Err(ParsecAccessError::Io("second".to_string())),
    ];
    match assemble_data(2, reads) {
        Err(ParsecAccessError::Io(m)) => assert_eq!(m, "first"),
        other => panic!("unexpected {:?}", other),
    }
}

#[test]
fn assembly_uses_the_grid_composition() {
    let reads = vec![Ok(Trajectory::new(vec![sample(1, 1)])), Ok(Trajectory::new(vec![sample(2, 1)]))];
    let d = assemble_data(2, reads).unwrap();
    assert_eq!(d.metallicity_in_mass_fraction, 500);
    assert_eq!(d.data.len(), 2);
    assert_eq!(d.data[1].initial_mass(), 2);
}

#[test]
fn assembly_refuses_an_empty_trajectory() {
    let reads = vec![Ok(Trajectory::new(vec![sample(1, 1)])), Ok(Trajectory::new(vec![]))];
    match assemble_data(8, reads) {
        Err(ParsecAccessError::DataNotAvailable(m)) => {
            assert_eq!(m, "Parsec Data for metallicity Z0.0100 is empty.")
        }
        other => panic!("unexpected {:?}", other),
    }
    assert!(matches!(assemble_data(0, vec![]), Err(ParsecAccessError::DataNotAvailable(_))));
}

#[test]
fn a_slot_is_filled_only_once() {
    let mut catalog = Catalog::new();
    assert!(!is_data_ready(&catalog));
    assert!(catalog.needs_loading(4));
    catalog.store(4, Err(ParsecAccessError::Connection("down".to_string())));
    assert!(!catalog.needs_loading(4));
    catalog.store(4, Ok(table(2000)));
    assert!(matches!(catalog.slot(4), Slot::Failed(ParsecAccessError::Connection(_))));
    catalog.store(5, Ok(ParsecData::default()));
    match catalog.slot(5) {
        Slot::Failed(ParsecAccessError::DataNotAvailable(m)) => {
            assert_eq!(m, "Parsec Data for metallicity Z0.0040 is empty.")
        }
        _ => panic!("slot 5 should hold a failure"),
    }
}

#[test]
fn one_failed_slot_keeps_the_catalog_from_being_ready() {
    let mut catalog = Catalog::new();
    for (i, z) in get_metallicities_in_mass_fractions().iter().enumerate() {
        if i == 7 {
            catalog.store(i, Err(ParsecAccessError::Io("disk".to_string())));
        } else {
            catalog.store(i, Ok(table(*z)));
        }
    }
    assert!(!is_data_ready(&catalog));
    assert!(is_data_ready(&ready_catalog()));
}

#[test]
fn lookups_by_index_and_by_value_agree() {
    let catalog = ready_catalog();
    assert_eq!(get_data(&catalog, 9).metallicity_in_mass_fraction, 14_000);
    assert_eq!(get_closest_data(&catalog, 12_200).metallicity_in_mass_fraction, 14_000);
    assert_eq!(get_trajectory(&catalog, 9, 1).initial_mass(), 1_000_000);
    assert_eq!(get_closest_trajectory(&catalog, 12_200, 1_050_000).initial_mass(), 1_000_000);
    assert_eq!(get_closest_trajectory(&catalog, 12_200, 1_100_000).initial_mass(), 1_200_000);
    let by_value = get_closest_parameters(&catalog, 12_200, 1_000_000, 4_600_000);
    assert_eq!(*by_value, *get_parameters(&catalog, 9, 1, 1));
    assert_eq!(by_value.mass, 999_000);
}

#[test]
fn data_directories_of_other_versions_are_found() {
    assert_eq!(
        text(&old_data_dirs_pattern("/home/u/.config/parsec_access_0.1.0")),
        "/home/u/.config/parsec_access_*"
    );
    assert_eq!(text(&old_data_dirs_pattern("plain")), "_*");
    assert!(contains_text("/x/parsec_access_0.1.0/y", "parsec_access_0.1.0"));
    assert!(!contains_text("/x/parsec_access_0.0.9", "parsec_access_0.1.0"));
    assert!(contains_text("abc", ""));
    assert!(!contains_text("", "a"));
}
