pub mod papercraft;
pub mod unfold_uv;
pub mod welding;
