//! Tow trucks and orders as the dispatch engine reads them, and the form in
//! which a tow truck is handed to callers.

use vstd::prelude::*;

verus! {

/// A tow truck of the fleet: a snapshot of where it stands and what it does.
#[derive(Clone, Debug)]
pub struct TowTruck {
    pub id: i32,
    pub status: String,
    pub node_id: i32,
    pub area_id: i32,
}

/// A tow truck as callers of the service see it.
#[derive(Clone, Debug)]
pub struct TowTruckDto {
    pub id: i32,
    pub status: String,
    pub node_id: i32,
    pub area_id: i32,
}

/// A pending service request: where help is needed.
#[derive(Clone, Copy, Debug)]
pub struct Order {
    pub id: i32,
    pub node_id: i32,
    pub area_id: i32,
}

impl TowTruckDto {
    /// The transfer form of a tow truck: every field carried over.
    pub open spec fn of(entity: TowTruck) -> TowTruckDto {
        TowTruckDto {
            id: entity.id,
            status: entity.status,
            node_id: entity.node_id,
            area_id: entity.area_id,
        }
    }

    /// Turns a tow truck into its transfer form.
    pub fn from_entity(entity: TowTruck) -> (dto: TowTruckDto)
        ensures
            dto == TowTruckDto::of(entity),
    {
        TowTruckDto {
            id: entity.id,
            status: entity.status,
            node_id: entity.node_id,
            area_id: entity.area_id,
        }
    }
}

/// The transfer forms of a list of tow trucks, in the same order.
pub fn to_dtos(tow_trucks: Vec<TowTruck>) -> (dtos: Vec<TowTruckDto>)
    ensures
        dtos@.len() == tow_trucks@.len(),
        forall|i: int| 0 <= i < dtos@.len() ==> dtos@[i] == TowTruckDto::of(tow_trucks@[i]),
{
    let mut dtos: Vec<TowTruckDto> = Vec::new();
    for truck in it: tow_trucks
        invariant
            dtos@.len() == it.index(),
            forall|i: int| 0 <= i < dtos@.len() ==> dtos@[i] == TowTruckDto::of(it.seq()[i]),
    {
        dtos.push(TowTruckDto::from_entity(truck));
    }
    dtos
}

} // verus!
