//! The track of one star: its samples over age, for one composition and one
//! initial mass.

use vstd::prelude::*;
use crate::error::ParsecAccessError;
use crate::line::{is_header, is_header_line, sample_of, read_error_message, ParsecLine};
use crate::nearest::is_ascending;

verus! {

/// The ages of the samples, in order.
pub open spec fn ages_of(s: Seq<ParsecLine>) -> Seq<i64> {
    s.map_values(|p: ParsecLine| p.age)
}

/// The mass of the first sample, or zero where there is none.
pub open spec fn initial_mass_of(s: Seq<ParsecLine>) -> i64 {
    if s.len() == 0 {
        0
    } else {
        s[0].mass
    }
}

/// The age of the last sample, or zero where there is none.
pub open spec fn lifetime_of(s: Seq<ParsecLine>) -> i64 {
    if s.len() == 0 {
        0
    } else {
        s.last().age
    }
}

/// The samples of a star of one composition and initial mass, in the order
/// of the file they were read from, with the initial mass, the lifetime and
/// the ages drawn from them.
#[derive(Debug)]
pub struct Trajectory {
    params: Vec<ParsecLine>,
    initial_mass: i64,
    lifetime: i64,
    ages: Vec<i64>,
}

impl View for Trajectory {
    type V = Seq<ParsecLine>;

    closed spec fn view(&self) -> Seq<ParsecLine> {
        self.params@
    }
}

impl Trajectory {
    #[verifier::type_invariant]
    closed spec fn consistent(&self) -> bool {
        &&& self.ages@ == ages_of(self.params@)
        &&& self.initial_mass == initial_mass_of(self.params@)
        &&& self.lifetime == lifetime_of(self.params@)
    }

    /// The trajectory of the given samples, kept in the order given.
    pub fn new(params: Vec<ParsecLine>) -> (r: Trajectory)
        ensures
            r@ == params@,
    {
        let initial_mass = if params.len() > 0 {
            params[0].mass
        } else {
            0
        };
        let lifetime = if params.len() > 0 {
            params[params.len() - 1].age
        } else {
            0
        };
        let mut ages: Vec<i64> = Vec::new();
        let mut i: usize = 0;
        while i < params.len()
            invariant
                i <= params@.len(),
                ages@ == ages_of(params@.take(i as int)),
            decreases params@.len() - i,
        {
            ages.push(params[i].age);
            i = i + 1;
            assert(ages@ =~= ages_of(params@.take(i as int)));
        }
        assert(params@.take(params@.len() as int) =~= params@);
        Trajectory { params, initial_mass, lifetime, ages }
    }

    /// Whether the trajectory holds no sample.
    pub fn is_empty(&self) -> (r: bool)
        ensures
            r == (self@.len() == 0),
    {
        self.params.len() == 0
    }

    /// Number of samples.
    pub fn len(&self) -> (r: usize)
        ensures
            r == self@.len(),
    {
        self.params.len()
    }

    /// The sample at `index`.
    pub fn get(&self, index: usize) -> (r: &ParsecLine)
        requires
            index < self@.len(),
        ensures
            *r == self@[index as int],
    {
        &self.params[index]
    }

    /// The mass of the first sample, or zero for an empty trajectory.
    pub fn initial_mass(&self) -> (r: i64)
        ensures
            r == initial_mass_of(self@),
    {
        proof {
            use_type_invariant(self);
        }
        self.initial_mass
    }

    /// The age of the last sample, or zero for an empty trajectory.
    pub fn lifetime(&self) -> (r: i64)
        ensures
            r == lifetime_of(self@),
    {
        proof {
            use_type_invariant(self);
        }
        self.lifetime
    }

    /// The ages of the samples, in order.
    pub fn ages(&self) -> (r: &Vec<i64>)
        ensures
            r@ == ages_of(self@),
    {
        proof {
            use_type_invariant(self);
        }
        &self.ages
    }
}

/// The lifetime of a trajectory is the last of its ages, and its ages are
/// those of its samples in order: they never decrease exactly when the
/// samples come in order of age.
pub proof fn lemma_lifetime_is_last_age(s: Seq<ParsecLine>)
    ensures
        s.len() > 0 ==> lifetime_of(s) == ages_of(s).last(),
        ages_of(s).len() == s.len(),
        is_ascending(ages_of(s)) <==> forall|i: int, j: int|
            0 <= i <= j < s.len() ==> #[trigger] s[i].age <= #[trigger] s[j].age,
{
    let a = ages_of(s);
    assert forall|i: int| 0 <= i < s.len() implies #[trigger] a[i] == s[i].age by {}
    if is_ascending(a) {
        assert forall|i: int, j: int| 0 <= i <= j < s.len() implies #[trigger] s[i].age
            <= #[trigger] s[j].age by {
            assert(a[i] <= a[j]);
        }
    }
}

/// The samples that the lines `ls` of a track file give, header lines
/// skipped, or `None` where a data line gives no sample.
pub open spec fn samples_of_lines(ls: Seq<Seq<char>>) -> Option<Seq<ParsecLine>>
    decreases ls.len(),
{
    if ls.len() == 0 {
        Some(seq![])
    } else {
        let before = samples_of_lines(ls.drop_last());
        let l = ls.last();
        if is_header_line(l) {
            before
        } else {
            match (before, sample_of(l)) {
                (Some(b), Some(p)) => Some(b.push(p)),
                _ => None,
            }
        }
    }
}

proof fn lemma_failure_persists(ls: Seq<Seq<char>>, k: int)
    requires
        0 <= k <= ls.len(),
        samples_of_lines(ls.take(k)) is None,
    ensures
        samples_of_lines(ls) is None,
    decreases ls.len() - k,
{
    if k < ls.len() {
        assert(ls.take(k + 1).drop_last() =~= ls.take(k));
        lemma_failure_persists(ls, k + 1);
    } else {
        assert(ls.take(k) =~= ls);
    }
}

/// What a list of strings holds.
pub open spec fn line_views(ls: Seq<String>) -> Seq<Seq<char>> {
    ls.map_values(|l: String| l@)
}

/// The trajectory that the lines of one track file give; the first data line
/// that gives no sample is reported as `ParsecLine::read` reports it.
pub fn read_trajectory_lines(lines: &Vec<String>) -> (r: Result<Trajectory, ParsecAccessError>)
    ensures
        r is Err <==> samples_of_lines(line_views(lines@)) is None,
        r matches Ok(t) ==> samples_of_lines(line_views(lines@)) == Some(t@),
        r matches Err(e) ==> exists|i: int|
            {
                &&& 0 <= i < lines@.len()
                &&& samples_of_lines(line_views(lines@.take(i))) is Some
                &&& !is_header_line(#[trigger] lines@[i]@)
                &&& sample_of(lines@[i]@) is None
                &&& (e matches ParsecAccessError::DataNotAvailable(m) && m@ == read_error_message(
                    lines@[i]@,
                ))
            },
{
    let mut params: Vec<ParsecLine> = Vec::new();
    let mut i: usize = 0;
    while i < lines.len()
        invariant
            i <= lines@.len(),
            samples_of_lines(line_views(lines@.take(i as int))) == Some(params@),
        decreases lines@.len() - i,
    {
        let ghost ls = line_views(lines@.take(i + 1));
        assert(ls.drop_last() =~= line_views(lines@.take(i as int)));
        assert(ls.last() == lines@[i as int]@);
        let line = lines[i].as_str();
        if !is_header(line) {
            match ParsecLine::read(line) {
                Ok(p) => {
                    params.push(p);
                },
                Err(e) => {
                    proof {
                        assert(line_views(lines@.take(i + 1)) =~= line_views(lines@).take(i + 1));
                        lemma_failure_persists(line_views(lines@), i + 1);
                    }
                    return Err(e);
                },
            }
        }
        i = i + 1;
    }
    assert(lines@.take(lines@.len() as int) =~= lines@);
    Ok(Trajectory::new(params))
}

} // verus!
