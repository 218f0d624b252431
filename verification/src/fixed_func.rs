pub mod topology;
pub mod dsu;
pub mod papercraft_gore;
pub mod immediate_mode3d;
pub mod welding;
pub mod topology_geometry_refactor;
pub mod papercraft;
pub mod deprecated;
pub mod silhouette_util;
pub mod silhouette;
