//! The fixed triangulation pattern shared by every rendered node.
//!
//! Every node is drawn as a square grid of a fixed resolution; the index
//! buffer that triangulates that grid is the same for all of them, so it is
//! generated once: a full-resolution list and a half-resolution list for
//! simplified, distant patches, laid end to end as little-endian bytes.

use vstd::prelude::*;
use vstd::arithmetic::div_mod::lemma_fundamental_div_mod_converse;
use crate::quadtree::QuadTree;

verus! {

/// Vertex index of the north-west corner of grid cell `cell`, for a grid of
/// `resolution` cells per side and `resolution + 1` vertices per side.
pub open spec fn grid_cell_corner(resolution: u16, cell: int) -> int
    recommends
        resolution > 0,
{
    (cell % (resolution as int)) + (cell / (resolution as int)) * (resolution + 1)
}

/// Entry `i` of the triangulation: six indices per cell, two triangles with
/// consistent winding, offset by the cell's corner.
pub open spec fn grid_index_at(resolution: u16, i: int) -> u16
    recommends
        resolution > 0,
{
    let base = grid_cell_corner(resolution, i / 6);
    let width = resolution + 1;
    let k = i % 6;
    (if k == 0 {
        base
    } else if k == 1 {
        base + 1
    } else if k == 2 {
        base + width
    } else if k == 3 {
        base + 1
    } else if k == 4 {
        base + width + 1
    } else {
        base + width
    }) as u16
}

/// The whole triangulation of a grid with `resolution` cells per side.
pub open spec fn grid_index_seq(resolution: u16) -> Seq<u16> {
    Seq::new((6 * resolution * resolution) as nat, |i: int| grid_index_at(resolution, i))
}

/// The little-endian byte image of a list of 16-bit indices.
pub open spec fn le_bytes_of(s: Seq<u16>) -> Seq<u8> {
    Seq::new(
        2 * s.len(),
        |i: int|
            if i % 2 == 0 {
                (s[i / 2] % 256) as u8
            } else {
                (s[i / 2] / 256) as u8
            },
    )
}

/// Builds the index list that triangulates a square grid of `resolution`
/// cells per side: for every cell, six indices forming two triangles. All
/// indices lie strictly below `(resolution + 1) * (resolution + 1)`, the
/// vertex count of the grid.
pub fn make_index_buffer(resolution: u16) -> (r: Vec<u16>)
    requires
        resolution <= 255,
    ensures
        r@ == grid_index_seq(resolution),
        forall|i: int|
            0 <= i < r@.len() ==> (#[trigger] r@[i]) < (resolution + 1) * (resolution + 1),
{
    let width: u16 = resolution + 1;
    let mut data: Vec<u16> = Vec::new();
    let mut y: u16 = 0;
    proof {
        assert(6 * (resolution as int) * (resolution as int) == 6 * ((resolution as int)
            * (resolution as int))) by (nonlinear_arith);
        assert(data@ =~= grid_index_seq(resolution).take(0));
    }
    while y < resolution
        invariant
            resolution <= 255,
            width == resolution + 1,
            y <= resolution,
            data@.len() == 6 * ((y as int) * (resolution as int)),
            data@ =~= grid_index_seq(resolution).take(6 * ((y as int) * (resolution as int))),
            grid_index_seq(resolution).len() == 6 * ((resolution as int) * (resolution as int)),
            6 * ((y as int) * (resolution as int)) <= grid_index_seq(resolution).len(),
        decreases resolution - y,
    {
        let mut x: u16 = 0;
        while x < resolution
            invariant
                resolution <= 255,
                width == resolution + 1,
                y < resolution,
                x <= resolution,
                data@.len() == 6 * ((y as int) * (resolution as int) + (x as int)),
                data@ =~= grid_index_seq(resolution).take(
                    6 * ((y as int) * (resolution as int) + (x as int)),
                ),
                grid_index_seq(resolution).len() == 6 * ((resolution as int) * (
                resolution as int)),
                6 * ((y as int) * (resolution as int) + (x as int)) <= grid_index_seq(
                    resolution,
                ).len(),
            decreases resolution - x,
        {
            let ghost cell = (y as int) * (resolution as int) + (x as int);
            proof {
                assert((y as int) * (resolution as int) <= 254 * 255 && (x as int) + (y as int)
                    * (width as int) + (width as int) + 1 < (width as int) * (width as int)
                    <= 65536 && (y as int) * (resolution as int) + (x as int) + 1 <= (
                resolution as int) * (resolution as int)) by (nonlinear_arith)
                    requires
                        0 <= (x as int) < (resolution as int),
                        0 <= (y as int) < (resolution as int),
                        (resolution as int) <= 255,
                        (width as int) == (resolution as int) + 1,
                ;
            }
            let base: u16 = x + y * width;
            proof {
                lemma_fundamental_div_mod_converse(
                    cell,
                    resolution as int,
                    y as int,
                    x as int,
                );
                assert(grid_cell_corner(resolution, cell) == base);
                assert forall|k: int| 0 <= k < 6 implies #[trigger] ((6 * cell + k) / 6) == cell
                    && (6 * cell + k) % 6 == k by {
                    lemma_fundamental_div_mod_converse(6 * cell + k, 6, cell, k);
                }
            }
            data.push(base);
            data.push(base + 1);
            data.push(base + width);
            data.push(base + 1);
            data.push(base + width + 1);
            data.push(base + width);
            proof {
                assert(data@ =~= grid_index_seq(resolution).take(6 * (cell + 1)));
            }
            x = x + 1;
        }
        proof {
            assert((y as int + 1) * (resolution as int) == (y as int) * (resolution as int) + (
            resolution as int)) by (nonlinear_arith);
        }
        y = y + 1;
    }
    proof {
        assert(data@ =~= grid_index_seq(resolution));
        assert forall|i: int| 0 <= i < data@.len() implies (#[trigger] data@[i]) < (resolution
            + 1) * (resolution + 1) by {
            assert(data@[i] == grid_index_at(resolution, i));
            let cell = i / 6;
            vstd::arithmetic::div_mod::lemma_fundamental_div_mod(i, 6);
            assert(0 <= cell < (resolution as int) * (resolution as int)) by (nonlinear_arith)
                requires
                    0 <= i < 6 * (resolution as int) * (resolution as int),
                    cell == i / 6,
                    6 * cell <= i < 6 * cell + 6,
            ;
            vstd::arithmetic::div_mod::lemma_fundamental_div_mod(cell, resolution as int);
            vstd::arithmetic::div_mod::lemma_mod_division_less_than_divisor(
                cell,
                resolution as int,
            );
            assert(0 <= cell / (resolution as int) < (resolution as int)) by (nonlinear_arith)
                requires
                    0 <= cell < (resolution as int) * (resolution as int),
                    (resolution as int) > 0,
                    cell == (resolution as int) * (cell / (resolution as int)) + cell % (
                    resolution as int),
                    0 <= cell % (resolution as int) < (resolution as int),
            ;
            assert(0 <= grid_cell_corner(resolution, cell) && grid_cell_corner(resolution, cell)
                + (resolution as int) + 2 < (resolution + 1) * (resolution + 1) + 1 <= 65537)
                by (nonlinear_arith)
                requires
                    0 <= cell % (resolution as int) < (resolution as int),
                    0 <= cell / (resolution as int) < (resolution as int),
                    (resolution as int) <= 255,
                    grid_cell_corner(resolution, cell) == (cell % (resolution as int)) + (cell
                        / (resolution as int)) * (resolution + 1),
            ;
            assert(grid_cell_corner(resolution, cell) + (resolution as int) + 2 <= (resolution
                + 1) * (resolution + 1) - 1) by (nonlinear_arith)
                requires
                    0 <= cell % (resolution as int) <= (resolution as int) - 1,
                    0 <= cell / (resolution as int) <= (resolution as int) - 1,
                    grid_cell_corner(resolution, cell) == (cell % (resolution as int)) + (cell
                        / (resolution as int)) * (resolution + 1),
            ;
        }
    }
    data
}

/// Lays a list of 16-bit indices out as little-endian bytes.
pub fn index_data_bytes(data: &Vec<u16>) -> (r: Vec<u8>)
    ensures
        r@ == le_bytes_of(data@),
{
    let mut out: Vec<u8> = Vec::new();
    let mut i: usize = 0;
    proof {
        assert(out@ =~= le_bytes_of(data@).take(0));
    }
    while i < data.len()
        invariant
            i <= data@.len(),
            out@.len() == 2 * i,
            out@ =~= le_bytes_of(data@).take(2 * i as int),
        decreases data@.len() - i,
    {
        let v = data[i];
        out.push((v % 256) as u8);
        out.push((v / 256) as u8);
        proof {
            assert forall|k: int| 0 <= k < 2 implies #[trigger] ((2 * (i as int) + k) / 2)
                == i as int && (2 * (i as int) + k) % 2 == k by {
                lemma_fundamental_div_mod_converse(2 * (i as int) + k, 2, i as int, k);
            }
            assert(out@ =~= le_bytes_of(data@).take(2 * (i as int + 1)));
        }
        i = i + 1;
    }
    proof {
        assert(out@ =~= le_bytes_of(data@));
    }
    out
}

impl QuadTree {
    /// The two index buffers every rendered node shares, as one little-endian
    /// byte blob: the full-resolution triangulation followed by the
    /// half-resolution one. The external GPU layer uploads it once at
    /// initialization.
    pub fn create_index_buffers(&self) -> (r: Vec<u8>)
        requires
            self.heights_resolution <= 255,
        ensures
            r@ == le_bytes_of(grid_index_seq(self.heights_resolution as u16)) + le_bytes_of(
                grid_index_seq((self.heights_resolution / 2) as u16),
            ),
    {
        let resolution = self.heights_resolution as u16;
        let full = make_index_buffer(resolution);
        let half = make_index_buffer(resolution / 2);
        let mut out = index_data_bytes(&full);
        let mut rest = index_data_bytes(&half);
        out.append(&mut rest);
        proof {
            assert((self.heights_resolution / 2) as u16 == resolution / 2);
        }
        out
    }
}

} // verus!
