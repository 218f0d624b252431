//! Integer helpers of the silhouette sampling: reading a pixel's luminance
//! and finding a triangle's vertex indices.
use vstd::prelude::*;

verus! {

/// The red byte (the luminance of a grey image) of pixel `(x, y)` of an
/// RGBA8 image `w` pixels wide, or 0 outside the image.
pub fn sample_lum(pixels: &[u8], w: usize, x: i32, y: i32) -> (lum: u8)
    requires
        4 * w <= usize::MAX,
    ensures
        lum == if x < 0 || y < 0 || x >= w || y >= pixels@.len() as int / (4 * w as int) {
            0
        } else {
            pixels@[4 * (y * w + x)]
        },
{
    if x < 0 || y < 0 || x as usize >= w || y as usize >= pixels.len() / (4 * w) {
        0
    } else {
        let rows = pixels.len() / (4 * w);
        let len = pixels.len();
        let xx = x as usize;
        let yy = y as usize;
        proof {
            assert(4 * (yy * w + xx) + 4 <= len) by (nonlinear_arith)
                requires
                    xx < w,
                    yy < rows,
                    rows == len as int / (4 * w as int),
                    w > 0,
            ;
        }
        let i = 4 * (yy * w + xx);
        pixels[i]
    }
}

/// The vertex indices of triangle `triangle_index`: from the index buffer
/// when the mesh is indexed, else three consecutive vertices.
pub fn indices_for_triangle(indexed: bool, indices: &[u16], triangle_index: usize) -> (corners: (usize, usize, usize))
    requires
        indexed ==> 3 * triangle_index + 3 <= indices@.len(),
        !indexed ==> 3 * triangle_index + 2 <= usize::MAX,
    ensures
        corners == if indexed {
            (
                indices@[3 * triangle_index] as usize,
                indices@[3 * triangle_index + 1] as usize,
                indices@[3 * triangle_index + 2] as usize,
            )
        } else {
            ((3 * triangle_index) as usize, (3 * triangle_index + 1) as usize, (3 * triangle_index + 2) as usize)
        },
{
    if indexed {
        let _len = indices.len();
        let base = triangle_index * 3;
        (indices[base] as usize, indices[base + 1] as usize, indices[base + 2] as usize)
    } else {
        (triangle_index * 3, triangle_index * 3 + 1, triangle_index * 3 + 2)
    }
}

} // verus!
