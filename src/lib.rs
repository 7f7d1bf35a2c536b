pub mod cells;
pub mod fds;
pub mod lpt;
pub mod params;
pub mod record;
pub mod token;

use crate::cells::{FdsParseError, ParseProblem};
use crate::fds::{
    is_outcome_of, is_regrouped, mesh_weights, nml_records, records_text, FdsFile, RecordView,
};
use crate::lpt::{lpt_assignment, total_weight, AllocationOutcome, MpiProcessAllocation};
use vstd::prelude::*;

verus! {

/// The rewrites asked for: `n_mpi`, where given, is the number of MPI processes to share
/// the meshes among.
#[derive(Clone, Copy, Debug, PartialEq, Eq, Structural)]
pub struct Transforms {
    pub n_mpi: Option<u32>,
}

/// What the rewrites found: the allocation of meshes to processes, where one was asked for.
#[derive(Clone, Debug, PartialEq, Eq, PartialOrd, Ord)]
pub struct TransformsOutcome {
    pub mesh_allocation: Option<AllocationOutcome>,
}

/// The error that the rewrites meet on a file, if any.
pub open spec fn transform_error(f: Seq<RecordView>, n_mpi: Option<u32>) -> Option<FdsParseError> {
    match n_mpi {
        None => None,
        Some(n) => if n == 0 {
            Some(FdsParseError::InvalidProcessCount)
        } else {
            match mesh_weights(f) {
                Err(e) => Some(e),
                Ok(w) => if total_weight(w) > u64::MAX {
                    Some(FdsParseError::Parse(None, ParseProblem::CellCountOverflow))
                } else {
                    None
                },
            }
        },
    }
}

/// `g` and `o` are what the rewrites make of `f`: without a process count the file is left
/// as it is and nothing is reported; with one the meshes are allocated and regrouped.
pub open spec fn transformed(f: Seq<RecordView>, n_mpi: Option<u32>, g: Seq<RecordView>, o: Option<Seq<MpiProcessAllocation>>) -> bool {
    match n_mpi {
        None => g == f && o is None,
        Some(n) => match (mesh_weights(f), o) {
            (Ok(w), Some(ps)) => is_outcome_of(ps, w, n as nat) && is_regrouped(
                f,
                g,
                lpt_assignment(w, n as nat),
                n as nat,
            ),
            _ => false,
        },
    }
}

pub open spec fn allocation_of(o: TransformsOutcome) -> Option<Seq<MpiProcessAllocation>> {
    match o.mesh_allocation {
        Some(a) => Some(a.processes@),
        None => None,
    }
}

impl FdsFile {
    /// Applies the rewrites asked for to the file in place. Nothing is changed when an
    /// error is returned.
    pub fn apply(&mut self, transforms: &Transforms) -> (r: Result<TransformsOutcome, FdsParseError>)
        ensures
            match transform_error(old(self)@, transforms.n_mpi) {
                Some(e) => r == Err::<TransformsOutcome, FdsParseError>(e) && final(self)@ == old(self)@,
                None => r matches Ok(o) && transformed(old(self)@, transforms.n_mpi, final(self)@, allocation_of(o)),
            },
    {
        match transforms.n_mpi {
            None => Ok(TransformsOutcome { mesh_allocation: None }),
            Some(n) => match self.allocate_mpi_processes(n) {
                Ok(a) => Ok(TransformsOutcome { mesh_allocation: Some(a) }),
                Err(e) => Err(e),
            },
        }
    }
}

/// Reads a model file from its text, applies the rewrites asked for, and gives the new
/// text with what the rewrites found. Without rewrites the text comes back unchanged.
pub fn apply_transforms(transforms: &Transforms, input: &str) -> (r: Result<(String, TransformsOutcome), FdsParseError>)
    ensures
        r is Ok <==> (nml_records(input@) matches Some(f) && transform_error(f, transforms.n_mpi) is None),
        r matches Ok((out, o)) ==> exists|g: Seq<RecordView>|
            records_text(g) == out@ && transformed(
                nml_records(input@)->Some_0,
                transforms.n_mpi,
                g,
                allocation_of(o),
            ),
        transforms.n_mpi is None ==> (r matches Ok((out, o)) ==> out@ == input@ && o.mesh_allocation is None),
        r matches Err(e) ==> (nml_records(input@) is None && e is Tokenize) || (nml_records(input@) matches Some(f)
            && transform_error(f, transforms.n_mpi) == Some(e)),
{
    let mut file = match FdsFile::parse(input) {
        Ok(f) => f,
        Err(e) => {
            return Err(e);
        },
    };
    let ghost f = file@;
    let outcome = match file.apply(transforms) {
        Ok(o) => o,
        Err(e) => {
            assert(records_text(f) == input@ && transform_error(f, transforms.n_mpi) == Some(e));
            return Err(e);
        },
    };
    let out = file.to_text();
    assert(records_text(f) == input@ && records_text(file@) == out@);
    Ok((out, outcome))
}

} // verus!
