//! Speed-camera enforcement core: vehicles, roads, sightings and citations.
pub mod car;
pub mod ticket;
pub mod keyed;
pub mod sightings;
pub mod road;
pub mod network;
