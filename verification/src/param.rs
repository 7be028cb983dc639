//! How a cube is generalized.

use vstd::prelude::*;

use crate::options::Options;

verus! {

/// How hard to try to drop literals from a cube.
#[derive(Clone, Copy, PartialEq, Eq, Structural, Debug)]
pub struct DropVarParameter {
    /// How many nested blocking attempts one counterexample may take.
    pub limit: usize,
    /// How many counterexamples in a row may be blocked.
    pub max: usize,
    /// How deep blocking attempts may nest; 0 for none.
    pub level: usize,
}

impl DropVarParameter {
    /// The parameter with the given values.
    pub fn new(limit: usize, max: usize, level: usize) -> (r: DropVarParameter)
        ensures
            r == (DropVarParameter { limit, max, level }),
    {
        DropVarParameter { limit, max, level }
    }

    /// The parameter for the attempts nested in this one.
    pub open spec fn sub_level_spec(self) -> DropVarParameter {
        DropVarParameter { limit: self.limit, max: self.max, level: (self.level - 1) as usize }
    }

    /// The parameter for the attempts nested in this one: one level less.
    pub fn sub_level(self) -> (r: DropVarParameter)
        requires
            self.level > 0,
        ensures
            r == (DropVarParameter {
                limit: self.limit,
                max: self.max,
                level: (self.level - 1) as usize,
            }),
    {
        DropVarParameter { limit: self.limit, max: self.max, level: self.level - 1 }
    }

    /// The least effort.
    pub open spec fn zero() -> DropVarParameter {
        DropVarParameter { limit: 0, max: 0, level: 0 }
    }
}

impl Default for DropVarParameter {
    /// The least effort: no nested attempts.
    fn default() -> (r: DropVarParameter)
        ensures
            r == DropVarParameter::zero(),
    {
        DropVarParameter { limit: 0, max: 0, level: 0 }
    }
}

/// A way to generalize a cube.
#[derive(Clone, Copy, PartialEq, Eq, Structural, Debug)]
pub enum MicType {
    /// Leave the cube as it is.
    NoMic,
    /// Drop literals one by one.
    DropVar(DropVarParameter),
    /// Drop literals in several orders, for up to the given number of cubes.
    MultiClauses(DropVarParameter, usize),
}

impl MicType {
    /// The way that the options ask for.
    pub open spec fn chosen_by(options: Options) -> MicType {
        let p = if options.ic3.ctg {
            DropVarParameter {
                limit: options.ic3.ctg_limit,
                max: options.ic3.ctg_max,
                level: 1,
            }
        } else {
            DropVarParameter::zero()
        };
        if options.ic3.multi_clauses > 1 {
            MicType::MultiClauses(p, options.ic3.multi_clauses)
        } else {
            MicType::DropVar(p)
        }
    }

    /// The way that the options ask for: several clauses where more than one is wanted, and
    /// nested attempts, one level deep, where counterexamples are to be blocked.
    pub fn from_options(options: &Options) -> (r: MicType)
        ensures
            r == MicType::chosen_by(*options),
    {
        let p: DropVarParameter = if options.ic3.ctg {
            DropVarParameter {
                limit: options.ic3.ctg_limit,
                max: options.ic3.ctg_max,
                level: 1,
            }
        } else {
            DropVarParameter::default()
        };
        if options.ic3.multi_clauses > 1 {
            MicType::MultiClauses(p, options.ic3.multi_clauses)
        } else {
            MicType::DropVar(p)
        }
    }
}

} // verus!
