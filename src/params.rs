use vstd::prelude::*;

verus! {

/// Why a configured or decoded quantity was rejected.
#[derive(Debug, Clone, Copy, PartialEq, Eq)]
pub enum CheckError {
    /// `val` lies outside the half-open range `start..end`.
    OutOfRange { val: usize, start: usize, end: usize },
    /// A vector holds `len` entries where `exp_len` were expected.
    WrongLength { len: usize, exp_len: usize },
    /// A matrix has shape `dim` where `exp_dim` was expected.
    WrongShape { dim: (usize, usize), exp_dim: (usize, usize) },
    /// A transition matrix has `rows` rows and `cols` columns.
    NotSquare { rows: usize, cols: usize },
}

/// Accepts `val` exactly when it lies in the half-open range `range`.
pub fn check_number(val: usize, range: core::ops::Range<usize>) -> (r: Result<(), CheckError>)
    ensures
        r is Ok <==> range.start <= val < range.end,
        r is Err ==> r == Err::<(), CheckError>(
            CheckError::OutOfRange { val, start: range.start, end: range.end },
        ),
{
    if range.start <= val && val < range.end {
        Ok(())
    } else {
        Err(CheckError::OutOfRange { val, start: range.start, end: range.end })
    }
}

/// Accepts a vector length exactly when it is the expected one.
pub fn check_length(len: usize, exp_len: usize) -> (r: Result<(), CheckError>)
    ensures
        r is Ok <==> len == exp_len,
        r is Err ==> r == Err::<(), CheckError>(CheckError::WrongLength { len, exp_len }),
{
    if len == exp_len {
        Ok(())
    } else {
        Err(CheckError::WrongLength { len, exp_len })
    }
}

/// Accepts a matrix shape exactly when it is the expected one and, for a
/// transition matrix, also square.
pub fn check_shape(dim: (usize, usize), exp_dim: (usize, usize), trans_mat: bool) -> (r: Result<
    (),
    CheckError,
>)
    ensures
        r is Ok <==> dim == exp_dim && (trans_mat ==> dim.0 == dim.1),
        dim != exp_dim ==> r == Err::<(), CheckError>(CheckError::WrongShape { dim, exp_dim }),
        dim == exp_dim && trans_mat && dim.0 != dim.1 ==> r == Err::<(), CheckError>(
            CheckError::NotSquare { rows: dim.0, cols: dim.1 },
        ),
{
    if dim.0 != exp_dim.0 || dim.1 != exp_dim.1 {
        return Err(CheckError::WrongShape { dim, exp_dim });
    }
    if trans_mat && dim.0 != dim.1 {
        return Err(CheckError::NotSquare { rows: dim.0, cols: dim.1 });
    }
    Ok(())
}

/// Which configured count was rejected, and why.
#[derive(Debug, Clone, Copy, PartialEq, Eq)]
pub enum ParamError {
    Environments(CheckError),
    Phenotypes(CheckError),
    InitialAgents(CheckError),
    StepsPerSave(CheckError),
    SavesPerFile(CheckError),
}

pub const MAX_ENVIRONMENTS: usize = 100;

pub const MAX_PHENOTYPES: usize = 100;

pub const MAX_INITIAL_AGENTS: usize = 100_000;

pub const MAX_STEPS_PER_SAVE: usize = 10_000;

pub const MAX_SAVES_PER_FILE: usize = 10_000;

/// The integer-valued part of a simulation's configuration.
#[derive(Debug, Clone, Copy, PartialEq, Eq)]
pub struct Counts {
    pub n_env: usize,
    pub n_phe: usize,
    pub n_agt_init: usize,
    pub steps_per_save: usize,
    pub saves_per_file: usize,
}

impl Counts {
    /// Every count is at least one and below its bound.
    pub open spec fn valid(self) -> bool {
        &&& 1 <= self.n_env < MAX_ENVIRONMENTS
        &&& 1 <= self.n_phe < MAX_PHENOTYPES
        &&& 1 <= self.n_agt_init < MAX_INITIAL_AGENTS
        &&& 1 <= self.steps_per_save < MAX_STEPS_PER_SAVE
        &&& 1 <= self.saves_per_file < MAX_SAVES_PER_FILE
    }

    /// Checks the counts in declaration order and reports the first one out
    /// of its range.
    pub fn check(&self) -> (r: Result<(), ParamError>)
        ensures
            r is Ok <==> self.valid(),
            !(1 <= self.n_env < MAX_ENVIRONMENTS) ==> r matches Err(ParamError::Environments(_)),
            1 <= self.n_env < MAX_ENVIRONMENTS && !(1 <= self.n_phe < MAX_PHENOTYPES) ==> r matches Err(
                ParamError::Phenotypes(_),
            ),
            1 <= self.n_env < MAX_ENVIRONMENTS && 1 <= self.n_phe < MAX_PHENOTYPES && !(1
                <= self.n_agt_init < MAX_INITIAL_AGENTS) ==> r matches Err(
                ParamError::InitialAgents(_),
            ),
            1 <= self.n_env < MAX_ENVIRONMENTS && 1 <= self.n_phe < MAX_PHENOTYPES && 1
                <= self.n_agt_init < MAX_INITIAL_AGENTS && !(1 <= self.steps_per_save
                < MAX_STEPS_PER_SAVE) ==> r matches Err(ParamError::StepsPerSave(_)),
            1 <= self.n_env < MAX_ENVIRONMENTS && 1 <= self.n_phe < MAX_PHENOTYPES && 1
                <= self.n_agt_init < MAX_INITIAL_AGENTS && 1 <= self.steps_per_save
                < MAX_STEPS_PER_SAVE && !(1 <= self.saves_per_file < MAX_SAVES_PER_FILE) ==> r
                matches Err(ParamError::SavesPerFile(_)),
    {
        if let Err(e) = check_number(self.n_env, 1..MAX_ENVIRONMENTS) {
            return Err(ParamError::Environments(e));
        }
        if let Err(e) = check_number(self.n_phe, 1..MAX_PHENOTYPES) {
            return Err(ParamError::Phenotypes(e));
        }
        if let Err(e) = check_number(self.n_agt_init, 1..MAX_INITIAL_AGENTS) {
            return Err(ParamError::InitialAgents(e));
        }
        if let Err(e) = check_number(self.steps_per_save, 1..MAX_STEPS_PER_SAVE) {
            return Err(ParamError::StepsPerSave(e));
        }
        if let Err(e) = check_number(self.saves_per_file, 1..MAX_SAVES_PER_FILE) {
            return Err(ParamError::SavesPerFile(e));
        }
        Ok(())
    }
}

} // verus!
