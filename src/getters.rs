//! The catalog of composition tables, and lookups in it by index or by the
//! nearest physical value.
//!
//! Each composition has one slot. A slot starts unloaded and is filled once,
//! with a table or with the error met while building it; it is never filled
//! again. Lookups ask that every slot hold a valid table, which
//! `is_data_ready` tells.

use vstd::prelude::*;
use crate::data::{empty_table_error, empty_table_text, ParsecData};
use crate::error::ParsecAccessError;
use crate::line::ParsecLine;
pub use crate::metallicity::get_closest_metallicity_index_from_mass_fraction;
use crate::metallicity::{mass_fraction_grid, METALLICITY_COUNT};
use crate::nearest::{
    closest_index, get_closest_index, is_ascending, is_closest_index, is_strictly_ascending,
    lemma_grid_value_maps_to_itself,
};
use crate::trajectory::{ages_of, initial_mass_of, Trajectory};

pub use crate::metallicity::{
    get_closest_metallicity_index_from_fe_dex, get_metallicities_in_fe_dex,
    get_metallicities_in_mass_fractions,
};

verus! {

/// The state of one composition's slot.
#[derive(Debug)]
pub enum Slot {
    /// Not built or read yet.
    Unloaded,
    /// Built or read; the table passed validation.
    Loaded(ParsecData),
    /// Building or reading failed, or the table did not pass validation.
    Failed(ParsecAccessError),
}

/// One slot per composition of the grid, in grid order.
#[derive(Debug)]
pub struct Catalog {
    slots: Vec<Slot>,
}

impl View for Catalog {
    type V = Seq<Slot>;

    closed spec fn view(&self) -> Seq<Slot> {
        self.slots@
    }
}

/// The slot holds a valid table.
pub open spec fn slot_ready(s: Slot) -> bool {
    s matches Slot::Loaded(d) && d.valid()
}

/// Every slot holds a valid table.
pub open spec fn ready(slots: Seq<Slot>) -> bool {
    &&& slots.len() == METALLICITY_COUNT
    &&& forall|i: int| 0 <= i < slots.len() ==> #[trigger] slot_ready(slots[i])
}

/// What a load's outcome leaves in the slot it fills: a valid table as it
/// is, an invalid one as data of composition `i` that is not available, an
/// error as it is.
pub open spec fn stored(result: Result<ParsecData, ParsecAccessError>, i: int, s: Slot) -> bool {
    match result {
        Ok(d) => if d.valid() {
            s == Slot::Loaded(d)
        } else {
            s matches Slot::Failed(ParsecAccessError::DataNotAvailable(m)) && m@
                == empty_table_text(i)
        },
        Err(e) => s == Slot::Failed(e),
    }
}

/// The table in slot `i` of a ready catalog.
pub open spec fn table_at(slots: Seq<Slot>, i: int) -> ParsecData {
    slots[i]->Loaded_0
}

/// The initial masses of a table's trajectories, in grid order.
pub open spec fn masses_of(d: ParsecData) -> Seq<i64> {
    d.data@.map_values(|t: Trajectory| initial_mass_of(t@))
}

impl Catalog {
    /// A catalog whose slots are all unloaded.
    pub fn new() -> (r: Catalog)
        ensures
            r@.len() == METALLICITY_COUNT,
            forall|i: int| 0 <= i < r@.len() ==> #[trigger] r@[i] is Unloaded,
    {
        let mut slots: Vec<Slot> = Vec::new();
        let mut i: usize = 0;
        while i < METALLICITY_COUNT
            invariant
                i <= METALLICITY_COUNT,
                slots@.len() == i,
                forall|k: int| 0 <= k < i ==> #[trigger] slots@[k] is Unloaded,
            decreases METALLICITY_COUNT - i,
        {
            slots.push(Slot::Unloaded);
            i = i + 1;
        }
        Catalog { slots }
    }

    /// The number of slots.
    pub fn len(&self) -> (r: usize)
        ensures
            r == self@.len(),
    {
        self.slots.len()
    }

    /// Whether slot `i` still waits for its load.
    pub fn needs_loading(&self, i: usize) -> (r: bool)
        requires
            i < self@.len(),
        ensures
            r == (self@[i as int] is Unloaded),
    {
        match &self.slots[i] {
            Slot::Unloaded => true,
            _ => false,
        }
    }

    /// The state of slot `i`.
    pub fn slot(&self, i: usize) -> (r: &Slot)
        requires
            i < self@.len(),
        ensures
            *r == self@[i as int],
    {
        &self.slots[i]
    }

    /// Fills slot `i` with the outcome of its load, where it is still
    /// unloaded; a filled slot keeps what it holds. A table that is not valid
    /// fills the slot as a failure.
    pub fn store(&mut self, i: usize, result: Result<ParsecData, ParsecAccessError>)
        requires
            i < old(self)@.len(),
            i < METALLICITY_COUNT,
        ensures
            old(self)@[i as int] is Unloaded ==> final(self)@ == old(self)@.update(
                i as int,
                final(self)@[i as int],
            ) && stored(result, i as int, final(self)@[i as int]),
            !(old(self)@[i as int] is Unloaded) ==> final(self)@ == old(self)@,
    {
        if !self.needs_loading(i) {
            return;
        }
        let slot = match result {
            Ok(d) => if d.is_valid() {
                Slot::Loaded(d)
            } else {
                Slot::Failed(empty_table_error(i))
            },
            Err(e) => Slot::Failed(e),
        };
        self.slots.set(i, slot);
    }
}

/// Whether every composition's slot holds a valid table. Lookups need this.
pub fn is_data_ready(catalog: &Catalog) -> (r: bool)
    ensures
        r == ready(catalog@),
{
    let n = catalog.len();
    if n != METALLICITY_COUNT {
        return false;
    }
    let mut i: usize = 0;
    while i < n
        invariant
            n == catalog@.len() == METALLICITY_COUNT,
            i <= n,
            forall|k: int| 0 <= k < i ==> #[trigger] slot_ready(catalog@[k]),
        decreases n - i,
    {
        match catalog.slot(i) {
            Slot::Loaded(d) => {
                if !d.is_valid() {
                    assert(!slot_ready(catalog@[i as int]));
                    return false;
                }
            },
            _ => {
                assert(!slot_ready(catalog@[i as int]));
                return false;
            },
        }
        i = i + 1;
    }
    true
}

/// The table of the composition at `metallicity_index`.
pub fn get_data(catalog: &Catalog, metallicity_index: usize) -> (r: &ParsecData)
    requires
        ready(catalog@),
        metallicity_index < METALLICITY_COUNT,
    ensures
        *r == table_at(catalog@, metallicity_index as int),
{
    assert(slot_ready(catalog@[metallicity_index as int]));
    match catalog.slot(metallicity_index) {
        Slot::Loaded(d) => d,
        _ => vstd::pervasive::unreached(),
    }
}

/// The index of the composition nearest to `mass_fraction` (in millionths).
pub open spec fn closest_metallicity(mass_fraction: i64) -> int {
    closest_index(mass_fraction_grid(), mass_fraction)
}

/// The index of the trajectory of composition `i` nearest to `mass`.
pub open spec fn closest_mass(slots: Seq<Slot>, i: int, mass: i64) -> int {
    closest_index(masses_of(table_at(slots, i)), mass)
}

/// The index of the sample of trajectory `j` of composition `i` nearest to
/// `age`.
pub open spec fn closest_age(slots: Seq<Slot>, i: int, j: int, age: i64) -> int {
    closest_index(ages_of(table_at(slots, i).data@[j]@), age)
}

/// The table of the composition whose mass fraction (in millionths) is
/// closest to `mass_fraction`: `get_data` at the index that
/// `get_closest_metallicity_index_from_mass_fraction` gives.
pub fn get_closest_data(catalog: &Catalog, mass_fraction: i64) -> (r: &ParsecData)
    requires
        ready(catalog@),
    ensures
        *r == table_at(catalog@, closest_metallicity(mass_fraction)),
        is_closest_index(mass_fraction_grid(), mass_fraction, closest_metallicity(mass_fraction)),
{
    let i = get_closest_metallicity_index_from_mass_fraction(mass_fraction);
    get_data(catalog, i)
}

/// The trajectory at `mass_index` of the composition at `metallicity_index`.
pub fn get_trajectory(catalog: &Catalog, metallicity_index: usize, mass_index: usize) -> (r:
    &Trajectory)
    requires
        ready(catalog@),
        metallicity_index < METALLICITY_COUNT,
        mass_index < table_at(catalog@, metallicity_index as int).data@.len(),
    ensures
        *r == table_at(catalog@, metallicity_index as int).data@[mass_index as int],
{
    get_data(catalog, metallicity_index).get(mass_index)
}

/// The sample at `age_index` of the trajectory at `mass_index` of the
/// composition at `metallicity_index`.
pub fn get_parameters(
    catalog: &Catalog,
    metallicity_index: usize,
    mass_index: usize,
    age_index: usize,
) -> (r: &ParsecLine)
    requires
        ready(catalog@),
        metallicity_index < METALLICITY_COUNT,
        mass_index < table_at(catalog@, metallicity_index as int).data@.len(),
        age_index < table_at(catalog@, metallicity_index as int).data@[mass_index as int]@.len(),
    ensures
        *r == table_at(catalog@, metallicity_index as int).data@[mass_index as int]@[age_index as int],
{
    get_trajectory(catalog, metallicity_index, mass_index).get(age_index)
}

/// The initial masses of the composition at `metallicity_index`, in grid
/// order, in millionths of a solar mass.
pub fn get_masses_in_solar(catalog: &Catalog, metallicity_index: usize) -> (r: Vec<i64>)
    requires
        ready(catalog@),
        metallicity_index < METALLICITY_COUNT,
    ensures
        r@ == masses_of(table_at(catalog@, metallicity_index as int)),
{
    let r = get_data(catalog, metallicity_index).masses();
    assert(r@ =~= masses_of(table_at(catalog@, metallicity_index as int)));
    r
}

/// The index of the trajectory of the composition at `metallicity_index`
/// whose initial mass is closest to `mass` (in millionths of a solar mass);
/// halfway between two, the higher one. Where the initial masses do not
/// ascend, the result is only some index of the grid.
pub fn get_closest_mass_index(catalog: &Catalog, metallicity_index: usize, mass: i64) -> (r: usize)
    requires
        ready(catalog@),
        metallicity_index < METALLICITY_COUNT,
    ensures
        r == closest_mass(catalog@, metallicity_index as int, mass),
        r < table_at(catalog@, metallicity_index as int).data@.len(),
        is_ascending(masses_of(table_at(catalog@, metallicity_index as int))) ==> is_closest_index(
            masses_of(table_at(catalog@, metallicity_index as int)),
            mass,
            r as int,
        ),
{
    let masses = get_masses_in_solar(catalog, metallicity_index);
    proof {
        let d = table_at(catalog@, metallicity_index as int);
        assert(slot_ready(catalog@[metallicity_index as int]));
        assert(crate::data::table_view(d.data@).len() > 0);
    }
    get_closest_index(masses.as_slice(), mass)
}

/// Where the initial masses of a composition strictly ascend, looking up one
/// of them gives back its own index.
pub proof fn lemma_mass_grid_round_trip(slots: Seq<Slot>, metallicity_index: int, k: int, r: int)
    requires
        ready(slots),
        0 <= metallicity_index < METALLICITY_COUNT,
        is_strictly_ascending(masses_of(table_at(slots, metallicity_index))),
        0 <= k < masses_of(table_at(slots, metallicity_index)).len(),
        is_closest_index(
            masses_of(table_at(slots, metallicity_index)),
            masses_of(table_at(slots, metallicity_index))[k],
            r,
        ),
    ensures
        r == k,
{
    lemma_grid_value_maps_to_itself(masses_of(table_at(slots, metallicity_index)), k, r);
}

/// The ages of the trajectory at `mass_index` of the composition at
/// `metallicity_index`, in millionths of a year.
pub fn get_ages_in_years(catalog: &Catalog, metallicity_index: usize, mass_index: usize) -> (r:
    &Vec<i64>)
    requires
        ready(catalog@),
        metallicity_index < METALLICITY_COUNT,
        mass_index < table_at(catalog@, metallicity_index as int).data@.len(),
    ensures
        r@ == ages_of(table_at(catalog@, metallicity_index as int).data@[mass_index as int]@),
{
    get_trajectory(catalog, metallicity_index, mass_index).ages()
}

/// The index of the sample of that trajectory whose age is closest to `age`
/// (in millionths of a year); halfway between two, the higher one. Where the
/// ages do not ascend, the result is only some index of the trajectory.
pub fn get_closest_age_index(
    catalog: &Catalog,
    metallicity_index: usize,
    mass_index: usize,
    age: i64,
) -> (r: usize)
    requires
        ready(catalog@),
        metallicity_index < METALLICITY_COUNT,
        mass_index < table_at(catalog@, metallicity_index as int).data@.len(),
    ensures
        r == closest_age(catalog@, metallicity_index as int, mass_index as int, age),
        r < table_at(catalog@, metallicity_index as int).data@[mass_index as int]@.len(),
        is_ascending(ages_of(table_at(catalog@, metallicity_index as int).data@[mass_index as int]@))
            ==> is_closest_index(
            ages_of(table_at(catalog@, metallicity_index as int).data@[mass_index as int]@),
            age,
            r as int,
        ),
{
    let ages = get_ages_in_years(catalog, metallicity_index, mass_index);
    proof {
        let d = table_at(catalog@, metallicity_index as int);
        assert(slot_ready(catalog@[metallicity_index as int]));
        assert(crate::data::table_view(d.data@)[mass_index as int].len() > 0);
    }
    get_closest_index(ages.as_slice(), age)
}

/// The trajectory nearest to a composition (mass fraction in millionths)
/// and an initial mass (in millionths of a solar mass): `get_trajectory` at
/// the indices that the composition and mass lookups give.
pub fn get_closest_trajectory(catalog: &Catalog, mass_fraction: i64, mass: i64) -> (r: &Trajectory)
    requires
        ready(catalog@),
    ensures
        ({
            let i = closest_metallicity(mass_fraction);
            let j = closest_mass(catalog@, i, mass);
            &&& 0 <= i < METALLICITY_COUNT
            &&& 0 <= j < table_at(catalog@, i).data@.len()
            &&& *r == table_at(catalog@, i).data@[j]
        }),
{
    let i = get_closest_metallicity_index_from_mass_fraction(mass_fraction);
    let j = get_closest_mass_index(catalog, i, mass);
    get_trajectory(catalog, i, j)
}

/// The sample nearest to a composition (mass fraction in millionths), an
/// initial mass (in millionths of a solar mass) and an age (in millionths of
/// a year): `get_parameters` at the indices that the composition, mass and
/// age lookups give.
pub fn get_closest_parameters(catalog: &Catalog, mass_fraction: i64, mass: i64, age: i64) -> (r:
    &ParsecLine)
    requires
        ready(catalog@),
    ensures
        ({
            let i = closest_metallicity(mass_fraction);
            let j = closest_mass(catalog@, i, mass);
            let k = closest_age(catalog@, i, j, age);
            &&& 0 <= i < METALLICITY_COUNT
            &&& 0 <= j < table_at(catalog@, i).data@.len()
            &&& 0 <= k < table_at(catalog@, i).data@[j]@.len()
            &&& *r == table_at(catalog@, i).data@[j]@[k]
        }),
{
    let i = get_closest_metallicity_index_from_mass_fraction(mass_fraction);
    let j = get_closest_mass_index(catalog, i, mass);
    let k = get_closest_age_index(catalog, i, j, age);
    get_parameters(catalog, i, j, k)
}

} // verus!
