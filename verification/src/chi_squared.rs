//! The chi-square distribution tag: its degrees of freedom and the
//! invariant that they stay positive.  Sampling and density evaluation
//! draw on floating-point special functions and randomness and live with
//! the unverified collaborators.

use vstd::prelude::*;

verus! {

/// A chi-square distribution with a positive number of degrees of
/// freedom.
#[derive(Clone, Copy, Debug)]
pub struct ChiSquared {
    /// Degrees of freedom (k).
    dof: usize,
}

impl ChiSquared {
    /// The degrees of freedom, as a spec value.
    pub closed spec fn dof_spec(&self) -> int {
        self.dof as int
    }

    /// Every constructed distribution has positive degrees of freedom.
    pub open spec fn wf(&self) -> bool {
        self.dof_spec() >= 1
    }

    /// A new chi-square distribution with the given positive degrees of
    /// freedom.
    pub fn new(dof: usize) -> (r: ChiSquared)
        requires
            dof >= 1,
        ensures
            r.wf(),
            r.dof_spec() == dof,
    {
        ChiSquared { dof }
    }

    /// Replaces the degrees of freedom, which must stay positive.
    pub fn set_dof(&mut self, dof: usize)
        requires
            dof >= 1,
        ensures
            final(self).wf(),
            final(self).dof_spec() == dof,
    {
        self.dof = dof;
    }

    /// The current degrees of freedom.
    pub fn dof(&self) -> (r: usize)
        ensures
            r == self.dof_spec(),
    {
        self.dof
    }
}

impl Default for ChiSquared {
    /// One degree of freedom.
    fn default() -> (r: ChiSquared)
        ensures
            r.wf(),
            r.dof_spec() == 1,
    {
        ChiSquared::new(1)
    }
}

} // verus!
