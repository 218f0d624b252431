pub mod fixed_func;
pub mod union_find;
pub mod stable_order;
pub mod geometry;
pub mod collision_mask;
pub mod collision_mask_util;
pub mod grid_walk;
pub mod keys;
pub mod midi;
pub mod fu4seoi3;
