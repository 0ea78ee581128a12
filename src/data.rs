//! The table of one composition: one trajectory per initial mass.

use vstd::prelude::*;
use crate::error::ParsecAccessError;
use crate::metallicity::{
    get_metallicities_in_mass_fractions, get_metallicity_name, mass_fraction_grid,
    metallicity_name, METALLICITY_COUNT,
};
use vstd::string::StringExecFns;
use crate::trajectory::{initial_mass_of, Trajectory};

verus! {

/// The tracks of one composition: its metal mass fraction Z, in millionths,
/// and one trajectory per initial mass of the mass grid, in grid order.
#[derive(Debug)]
pub struct ParsecData {
    pub metallicity_in_mass_fraction: i64,
    pub data: Vec<Trajectory>,
}

/// The samples of each trajectory of a table, in order.
pub open spec fn table_view(data: Seq<Trajectory>) -> Seq<Seq<crate::line::ParsecLine>> {
    data.map_values(|t: Trajectory| t@)
}

/// A table is valid where its composition is positive, it holds at least one
/// trajectory, and no trajectory is empty.
pub open spec fn valid_table(z: i64, trajectories: Seq<Seq<crate::line::ParsecLine>>) -> bool {
    &&& z > 0
    &&& trajectories.len() > 0
    &&& forall|i: int| 0 <= i < trajectories.len() ==> #[trigger] trajectories[i].len() > 0
}

impl ParsecData {
    /// The table is valid: see `valid_table`.
    pub open spec fn valid(&self) -> bool {
        valid_table(self.metallicity_in_mass_fraction, table_view(self.data@))
    }

    /// Whether the table is valid: its composition is positive, it holds at
    /// least one trajectory, and none of them is empty.
    pub fn is_valid(&self) -> (r: bool)
        ensures
            r == self.valid(),
    {
        if self.metallicity_in_mass_fraction <= 0 {
            return false;
        }
        if self.data.len() == 0 {
            return false;
        }
        let mut i: usize = 0;
        while i < self.data.len()
            invariant
                i <= self.data@.len(),
                forall|k: int| 0 <= k < i ==> #[trigger] table_view(self.data@)[k].len() > 0,
            decreases self.data@.len() - i,
        {
            if self.data[i].is_empty() {
                assert(table_view(self.data@)[i as int].len() == 0);
                return false;
            }
            i = i + 1;
        }
        true
    }

    /// The trajectory at `mass_index`.
    pub fn get(&self, mass_index: usize) -> (r: &Trajectory)
        requires
            mass_index < self.data@.len(),
        ensures
            *r == self.data@[mass_index as int],
    {
        &self.data[mass_index]
    }

    /// The initial masses of the trajectories, in grid order, in millionths of
    /// a solar mass.
    pub fn masses(&self) -> (r: Vec<i64>)
        ensures
            r@.len() == self.data@.len(),
            forall|i: int| 0 <= i < r@.len() ==> r@[i] == initial_mass_of(#[trigger] self.data@[i]@),
    {
        let mut r: Vec<i64> = Vec::new();
        let mut i: usize = 0;
        while i < self.data.len()
            invariant
                i <= self.data@.len(),
                r@.len() == i,
                forall|k: int| 0 <= k < i ==> r@[k] == initial_mass_of(#[trigger] self.data@[k]@),
            decreases self.data@.len() - i,
        {
            r.push(self.data[i].initial_mass());
            i = i + 1;
        }
        r
    }
}

impl Default for ParsecData {
    /// An empty table of composition zero, which is not valid.
    fn default() -> (r: ParsecData)
        ensures
            r.metallicity_in_mass_fraction == 0,
            r.data@.len() == 0,
    {
        ParsecData { metallicity_in_mass_fraction: 0, data: Vec::new() }
    }
}

/// A table that holds an empty trajectory is not valid.
pub proof fn lemma_empty_trajectory_invalidates(d: ParsecData, i: int)
    requires
        0 <= i < d.data@.len(),
        d.data@[i]@.len() == 0,
    ensures
        !d.valid(),
{
    assert(table_view(d.data@)[i].len() == 0);
}

/// What a table of the composition at `metallicity_index` that fails
/// validation reports.
pub open spec fn empty_table_text(metallicity_index: int) -> Seq<char> {
    "Parsec Data for metallicity "@ + metallicity_name(metallicity_index) + " is empty."@
}

/// The error for a table of the composition at `metallicity_index` that
/// fails validation.
pub fn empty_table_error(metallicity_index: usize) -> (r: ParsecAccessError)
    requires
        metallicity_index < METALLICITY_COUNT,
    ensures
        r matches ParsecAccessError::DataNotAvailable(m) && m@ == empty_table_text(
            metallicity_index as int,
        ),
{
    let mut m = String::from_str("Parsec Data for metallicity ");
    m.append(get_metallicity_name(metallicity_index));
    m.append(" is empty.");
    ParsecAccessError::DataNotAvailable(m)
}

/// The index of the first failed read among `rs`, if any.
pub open spec fn is_first_failure(rs: Seq<Result<Trajectory, ParsecAccessError>>, i: int) -> bool {
    &&& 0 <= i < rs.len()
    &&& rs[i] is Err
    &&& forall|j: int| 0 <= j < i ==> #[trigger] rs[j] is Ok
}

/// The table of the composition at `metallicity_index` from the reads of its
/// track files, given in mass-grid order. The first failed read, in grid
/// order, is the error; otherwise the table is checked, and an invalid one is
/// reported as data that is not available, naming the composition.
pub fn assemble_data(
    metallicity_index: usize,
    reads: Vec<Result<Trajectory, ParsecAccessError>>,
) -> (r: Result<ParsecData, ParsecAccessError>)
    requires
        metallicity_index < METALLICITY_COUNT,
    ensures
        (exists|i: int| is_first_failure(reads@, i)) ==> exists|i: int|
            is_first_failure(reads@, i) && r == Err::<ParsecData, _>(reads@[i]->Err_0),
        (forall|i: int| 0 <= i < reads@.len() ==> #[trigger] reads@[i] is Ok) ==> {
            let z = mass_fraction_grid()[metallicity_index as int];
            let ts = reads@.map_values(|x: Result<Trajectory, ParsecAccessError>| x->Ok_0@);
            &&& r is Ok <==> valid_table(z, ts)
            &&& r matches Ok(d) ==> d.metallicity_in_mass_fraction == z && table_view(d.data@)
                == ts
            &&& r matches Err(e) ==> e matches ParsecAccessError::DataNotAvailable(m) && m@
                == empty_table_text(metallicity_index as int)
        },
{
    let ghost rs = reads@;
    let mut data: Vec<Trajectory> = Vec::new();
    for x in it: reads.into_iter()
        invariant
            it.seq() == rs,
            data@.len() == it.index(),
            forall|j: int| 0 <= j < it.index() ==> #[trigger] rs[j] is Ok,
            forall|j: int| 0 <= j < it.index() ==> #[trigger] data@[j]@ == rs[j]->Ok_0@,
    {
        match x {
            Ok(t) => {
                data.push(t);
            },
            Err(e) => {
                assert(is_first_failure(rs, it.index() as int));
                return Err(e);
            },
        }
    }
    proof {
        assert forall|i: int| is_first_failure(rs, i) implies false by {}
    }
    let grid = get_metallicities_in_mass_fractions();
    let table = ParsecData { metallicity_in_mass_fraction: grid[metallicity_index], data };
    assert(table_view(table.data@) =~= rs.map_values(
        |x: Result<Trajectory, ParsecAccessError>| x->Ok_0@,
    ));
    if table.is_valid() {
        Ok(table)
    } else {
        Err(empty_table_error(metallicity_index))
    }
}

} // verus!
