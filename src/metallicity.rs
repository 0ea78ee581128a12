//! The grid of initial compositions for which tracks are published.
//!
//! A composition is given either as the metal mass fraction Z, in millionths,
//! or as the iron abundance [Fe/H] = log10(Z / 0.0122), in millionths of a dex
//! (rounded to the nearest millionth).

use vstd::prelude::*;
use crate::nearest::{closest_index, get_closest_index, is_closest_index, is_strictly_ascending};
use crate::nearest::{
    lemma_above_grid_maps_to_last, lemma_below_grid_maps_to_first, lemma_grid_value_maps_to_itself,
};

verus! {

/// Number of compositions on the grid.
pub const METALLICITY_COUNT: usize = 15;

/// The metal mass fractions Z of the grid, in millionths, ascending.
pub open spec fn mass_fraction_grid() -> Seq<i64> {
    seq![
        100i64, 200, 500, 1000, 2000, 4000, 6000, 8000, 10000, 14000, 17000, 20000, 30000,
        40000, 60000,
    ]
}

/// The same compositions as [Fe/H], in millionths of a dex, ascending.
pub open spec fn fe_dex_grid() -> Seq<i64> {
    seq![
        -2086360i64, -1785330i64, -1387390i64, -1086360i64, -785330i64, -484300i64,
        -308209i64, -183270i64, -86360i64, 59768, 144089, 214670, 390761, 515700, 691791,
    ]
}

/// Both composition grids are strictly ascending and have one entry per
/// composition.
pub proof fn lemma_metallicity_grids_ascending()
    ensures
        mass_fraction_grid().len() == METALLICITY_COUNT,
        fe_dex_grid().len() == METALLICITY_COUNT,
        is_strictly_ascending(mass_fraction_grid()),
        is_strictly_ascending(fe_dex_grid()),
{
    let z = mass_fraction_grid();
    let d = fe_dex_grid();
    assert forall|i: int, j: int| 0 <= i < j < z.len() implies z[i] < z[j] by {
        assert forall|k: int| 0 <= k < z.len() - 1 implies #[trigger] z[k] < z[k + 1] by {}
        lemma_steps_give_strict_order(z, i, j);
    }
    assert forall|i: int, j: int| 0 <= i < j < d.len() implies d[i] < d[j] by {
        assert forall|k: int| 0 <= k < d.len() - 1 implies #[trigger] d[k] < d[k + 1] by {}
        lemma_steps_give_strict_order(d, i, j);
    }
}

proof fn lemma_steps_give_strict_order(s: Seq<i64>, i: int, j: int)
    requires
        0 <= i < j < s.len(),
        forall|k: int| 0 <= k < s.len() - 1 ==> #[trigger] s[k] < s[k + 1],
    ensures
        s[i] < s[j],
    decreases j - i,
{
    if j > i + 1 {
        lemma_steps_give_strict_order(s, i, j - 1);
        assert(s[j - 1] < s[j]);
    }
}

/// The name of the composition at index `i`: its mass fraction Z to four
/// decimals.
pub open spec fn metallicity_name(i: int) -> Seq<char> {
    if i == 0 {
        "Z0.0001"@
    } else if i == 1 {
        "Z0.0002"@
    } else if i == 2 {
        "Z0.0005"@
    } else if i == 3 {
        "Z0.0010"@
    } else if i == 4 {
        "Z0.0020"@
    } else if i == 5 {
        "Z0.0040"@
    } else if i == 6 {
        "Z0.0060"@
    } else if i == 7 {
        "Z0.0080"@
    } else if i == 8 {
        "Z0.0100"@
    } else if i == 9 {
        "Z0.0140"@
    } else if i == 10 {
        "Z0.0170"@
    } else if i == 11 {
        "Z0.0200"@
    } else if i == 12 {
        "Z0.0300"@
    } else if i == 13 {
        "Z0.0400"@
    } else {
        "Z0.0600"@
    }
}

/// The name of the composition at `metallicity_index`.
pub fn get_metallicity_name(metallicity_index: usize) -> (r: &'static str)
    requires
        metallicity_index < METALLICITY_COUNT,
    ensures
        r@ == metallicity_name(metallicity_index as int),
{
    match metallicity_index {
        0 => "Z0.0001",
        1 => "Z0.0002",
        2 => "Z0.0005",
        3 => "Z0.0010",
        4 => "Z0.0020",
        5 => "Z0.0040",
        6 => "Z0.0060",
        7 => "Z0.0080",
        8 => "Z0.0100",
        9 => "Z0.0140",
        10 => "Z0.0170",
        11 => "Z0.0200",
        12 => "Z0.0300",
        13 => "Z0.0400",
        _ => "Z0.0600",
    }
}

/// The metal mass fractions of the grid, in millionths.
pub fn get_metallicities_in_mass_fractions() -> (r: Vec<i64>)
    ensures
        r@ == mass_fraction_grid(),
{
    let r: Vec<i64> = vec![
        100, 200, 500, 1000, 2000, 4000, 6000, 8000, 10000, 14000, 17000, 20000, 30000, 40000,
        60000,
    ];
    assert(r@ =~= mass_fraction_grid());
    r
}

/// The compositions of the grid as [Fe/H], in millionths of a dex.
pub fn get_metallicities_in_fe_dex() -> (r: Vec<i64>)
    ensures
        r@ == fe_dex_grid(),
{
    let r: Vec<i64> = vec![
        -2086360, -1785330, -1387390, -1086360, -785330, -484300, -308209, -183270, -86360,
        59768, 144089, 214670, 390761, 515700, 691791,
    ];
    assert(r@ =~= fe_dex_grid());
    r
}

/// Index of the grid composition whose mass fraction is closest to
/// `mass_fraction` (in millionths); halfway between two, the higher one.
pub fn get_closest_metallicity_index_from_mass_fraction(mass_fraction: i64) -> (r: usize)
    ensures
        r == closest_index(mass_fraction_grid(), mass_fraction),
        is_closest_index(mass_fraction_grid(), mass_fraction, r as int),
        r < METALLICITY_COUNT,
{
    let grid = get_metallicities_in_mass_fractions();
    proof {
        lemma_metallicity_grids_ascending();
    }
    get_closest_index(grid.as_slice(), mass_fraction)
}

/// Index of the grid composition whose [Fe/H] is closest to `fe_dex` (in
/// millionths of a dex); halfway between two, the higher one.
pub fn get_closest_metallicity_index_from_fe_dex(fe_dex: i64) -> (r: usize)
    ensures
        r == closest_index(fe_dex_grid(), fe_dex),
        is_closest_index(fe_dex_grid(), fe_dex, r as int),
        r < METALLICITY_COUNT,
{
    let grid = get_metallicities_in_fe_dex();
    proof {
        lemma_metallicity_grids_ascending();
    }
    get_closest_index(grid.as_slice(), fe_dex)
}

/// Looking up a grid composition by its own mass fraction gives back its
/// index; a mass fraction below the grid gives the first index, one above it
/// the last.
pub proof fn lemma_mass_fraction_round_trip(v: i64, r: int)
    requires
        is_closest_index(mass_fraction_grid(), v, r),
    ensures
        forall|i: int|
            0 <= i < METALLICITY_COUNT && v == #[trigger] mass_fraction_grid()[i] ==> r == i,
        v <= mass_fraction_grid()[0] ==> r == 0,
        v >= mass_fraction_grid()[METALLICITY_COUNT - 1] ==> r == METALLICITY_COUNT - 1,
{
    let g = mass_fraction_grid();
    lemma_metallicity_grids_ascending();
    assert forall|i: int| 0 <= i < METALLICITY_COUNT && v == #[trigger] g[i] implies r == i by {
        lemma_grid_value_maps_to_itself(g, i, r);
    }
    if v <= g[0] {
        lemma_below_grid_maps_to_first(g, v, r);
    }
    if v >= g[METALLICITY_COUNT - 1] {
        lemma_above_grid_maps_to_last(g, v, r);
    }
}

/// The same round trip for compositions given as [Fe/H].
pub proof fn lemma_fe_dex_round_trip(v: i64, r: int)
    requires
        is_closest_index(fe_dex_grid(), v, r),
    ensures
        forall|i: int| 0 <= i < METALLICITY_COUNT && v == #[trigger] fe_dex_grid()[i] ==> r == i,
        v <= fe_dex_grid()[0] ==> r == 0,
        v >= fe_dex_grid()[METALLICITY_COUNT - 1] ==> r == METALLICITY_COUNT - 1,
{
    let g = fe_dex_grid();
    lemma_metallicity_grids_ascending();
    assert forall|i: int| 0 <= i < METALLICITY_COUNT && v == #[trigger] g[i] implies r == i by {
        lemma_grid_value_maps_to_itself(g, i, r);
    }
    if v <= g[0] {
        lemma_below_grid_maps_to_first(g, v, r);
    }
    if v >= g[METALLICITY_COUNT - 1] {
        lemma_above_grid_maps_to_last(g, v, r);
    }
}

} // verus!
