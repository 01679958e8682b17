//! Integer and bookkeeping logic of a crowd simulator that localises people
//! from the sightings of a few phone-carrying members of the crowd.
//!
//! Geometry (positions, radii, forces) is carried through this library as an
//! opaque type parameter; every decision the simulator takes on top of it is
//! stated and proved here.

pub mod fluctuation;
pub mod observation;
pub mod crowd;
pub mod cloud;
