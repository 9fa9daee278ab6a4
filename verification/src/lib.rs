//! One-loop reduction support: the momentum routing that puts loop propagators into the
//! chain the reducer assumes, the checks on an integral family's shape, and the master
//! integrals a reduction is expressed in.

pub mod chain;
pub mod directions;
pub mod error;
pub mod expr;
pub mod family;
pub mod masters;
pub mod routing;
pub mod symbols;
pub mod text;

use vstd::prelude::*;
use vstd::string::StringExecFns;

verus! {

/// The name the Python module registers under.
pub const MODULE_NAME: &'static str = "oneloopreduce";

/// The module's entry point for a Symbolica community build.
pub struct CommunityModule;

impl CommunityModule {
    /// The module's name.
    pub fn get_name() -> (res: String)
        ensures
            res@ == MODULE_NAME@,
    {
        let mut s = String::new();
        s.append(MODULE_NAME);
        s
    }
}

} // verus!
