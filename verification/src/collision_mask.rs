pub mod pixel_perfect;
