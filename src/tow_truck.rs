use vstd::prelude::*;

verus! {

/// A tow truck with its driver, its area and the node where it was last seen.
#[derive(Clone, Debug)]
pub struct TowTruck {
    pub id: i32,
    pub driver_id: i32,
    pub driver_username: Option<String>,
    pub status: bool,
    pub area_id: i32,
    pub node_id: i32,
}

} // verus!
