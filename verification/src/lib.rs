//! FIELD: a physics-agnostic substrate for mesh (Eulerian) methods.

pub mod amr;
pub mod amr_geometry;
pub mod amr_laws;
pub mod column;
pub mod component;
pub mod decomposition;
pub mod derive;
pub mod exchange;
pub mod exchange_laws;
pub mod extent_laws;
pub mod field_data;
pub mod flux;
pub mod forest;
pub mod ghost_laws;
pub mod grid;
pub mod grid_flux;
pub mod grid_geometry;
pub mod grid_laws;
pub mod halo;
pub mod halves;
pub mod hierarchy;
pub mod hierarchy_laws;
pub mod index;
pub mod ladder_laws;
pub mod location_laws;
pub mod mesh;
pub mod octree;
pub mod octree_closure;
pub mod octree_geometry;
pub mod octree_laws;
pub mod octree_volumes;
pub mod operator;
pub mod overlap_laws;
pub mod partition;
pub mod placement_laws;
pub mod registry;
pub mod regrid;
pub mod regrid_laws;
pub mod scalar;
pub mod schedule;
pub mod sums;
pub mod transfer;
pub mod transfer_exact;
pub mod transfer_laws;
pub mod uniform;
pub mod whole;
