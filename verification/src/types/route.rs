//! A tour paired with its cached cost.

use vstd::prelude::*;
use crate::types::path::Path;

verus! {

#[derive(Debug)]
pub struct Route {
    pub path: Path,
    pub cost: i32,
}

#[derive(Debug, PartialEq, Eq, Structural)]
pub enum HamiltonianResult {
    Valid,
    VisitedTwice(usize),
}

impl PartialEq for Route {
    fn eq(&self, other: &Route) -> (r: bool) {
        self.cost == other.cost && self.path == other.path
    }
}

impl Eq for Route {

}

impl vstd::std_specs::cmp::PartialEqSpecImpl for Route {
    open spec fn obeys_eq_spec() -> bool {
        true
    }

    open spec fn eq_spec(&self, other: &Route) -> bool {
        self.cost == other.cost && self.path@ == other.path@
    }
}

impl Route {
    pub fn new(path: Path, cost: i32) -> (r: Route)
        ensures
            r.path@ == path@,
            r.cost == cost,
    {
        Route { path, cost }
    }

    pub fn cost(&self) -> (r: i32)
        ensures
            r == self.cost,
    {
        self.cost
    }

    pub fn path(&self) -> (r: &Path)
        ensures
            r@ == self.path@,
    {
        &self.path
    }
}

} // verus!
